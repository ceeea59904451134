use vstd::prelude::*;

use crate::arith::{div_trunc, fits_i32, fits_i32_exec, fits_usize, i128_div, i32_div, lemma_take_full};
use crate::element::{Element, ElementMeasure};
use crate::layout::{total_gap, Alignment, Flex, FlexDirection, Layout, Spacing};
use crate::measure::{height_sum, heights_fit, sum_h, sum_w, width_sum, widths_fit};
use crate::order::{is_render_order, lemma_parent_position, lemma_render_order_distinct, tree_wf};
use crate::render_box::RenderBox;
use crate::vec2::Vec2i;

verus! {

/// A measure without its position: what arranging reads of a sub-element.
pub open spec fn unplaced(m: ElementMeasure) -> ElementMeasure {
    ElementMeasure { position: Vec2i { x: 0, y: 0 }, ..m }
}

/// The sizes (and inner boxes) of the sub-elements `cs`, as `all` holds them.
pub open spec fn child_sizes(all: Seq<ElementMeasure>, cs: Seq<usize>) -> Seq<ElementMeasure> {
    cs.map_values(|c: usize| unplaced(all[c as int]))
}

/// The sum of the sizes in `ms` along `dir`.
pub open spec fn sum_main(dir: FlexDirection, ms: Seq<ElementMeasure>) -> int {
    match dir {
        FlexDirection::Row => sum_w(ms),
        FlexDirection::Col => sum_h(ms),
    }
}

/// The size of `m` along `dir`.
pub open spec fn main_size(dir: FlexDirection, m: ElementMeasure) -> int {
    match dir {
        FlexDirection::Row => m.size.x as int,
        FlexDirection::Col => m.size.y as int,
    }
}

/// The size of `m` across `dir`.
pub open spec fn cross_size(dir: FlexDirection, m: ElementMeasure) -> int {
    match dir {
        FlexDirection::Row => m.size.y as int,
        FlexDirection::Col => m.size.x as int,
    }
}

/// `m` moved to `p`.
pub open spec fn with_position(m: ElementMeasure, p: Vec2i) -> ElementMeasure {
    ElementMeasure { position: p, ..m }
}

/// `all` with each sub-element `cs[j]` moved to `ps[j]`, in order (a later move of the same
/// element wins).
pub open spec fn place(all: Seq<ElementMeasure>, cs: Seq<usize>, ps: Seq<Vec2i>) -> Seq<ElementMeasure>
    decreases cs.len(),
{
    if cs.len() == 0 || ps.len() != cs.len() {
        all
    } else {
        let prev = place(all, cs.drop_last(), ps.drop_last());
        prev.update(cs.last() as int, with_position(prev[cs.last() as int], ps.last()))
    }
}

/// The top-left corner of the inner box of a measure.
pub open spec fn inner_start(m: ElementMeasure) -> (int, int) {
    (m.position.x + m.inner_box.x, m.position.y + m.inner_box.y)
}

/// The flex layout's values along its axes: where its inner box starts along the main axis and
/// across it, the inner box's size along and across, and the sub-elements' total size along
/// the main axis.
pub open spec fn flex_frame(p: Flex, m: ElementMeasure, cms: Seq<ElementMeasure>) -> (int, int, int, int, int) {
    let (ix, iy) = inner_start(m);
    match p.direction {
        FlexDirection::Row => (ix, iy, m.inner_box.w as int, m.inner_box.h as int, sum_w(cms)),
        FlexDirection::Col => (iy, ix, m.inner_box.h as int, m.inner_box.w as int, sum_h(cms)),
    }
}

/// Where the first sub-element of a flex layout starts along the main axis, and the extra
/// space after each sub-element, for `n` sub-elements.
pub open spec fn flex_start(p: Flex, start: int, size: int, content: int, n: int) -> (int, int) {
    let tg = total_gap(p.gap, n as usize) as int;
    let unused = size - (tg + content);
    match p.spacing {
        Spacing::Around => {
            let space = div_trunc(unused, n * 2);
            (start + space, 2 * space)
        },
        Spacing::Between => {
            let space = div_trunc(unused, n - 1);
            (start, space)
        },
        Spacing::Even => {
            let space = div_trunc(unused, n + 1);
            (start + space, space)
        },
        Spacing::Stretch => {
            let space = div_trunc(unused, n);
            (start, space)
        },
        Spacing::NoSpacing => (
            match p.axis_alignment {
                Alignment::Start => start,
                Alignment::Center => start + div_trunc(size - tg - content, 2),
                Alignment::End => start + size - tg - content,
            },
            0,
        ),
    }
}

/// Whether `flex_start` computes without overflow or division by zero.
pub open spec fn flex_start_fits(p: Flex, start: int, size: int, content: int, n: int) -> bool {
    let tg = total_gap(p.gap, n as usize) as int;
    let unused = size - (tg + content);
    &&& fits_i32(tg + content)
    &&& fits_i32(unused)
    &&& match p.spacing {
        Spacing::Around => {
            let space = div_trunc(unused, n * 2);
            fits_i32(n) && fits_i32(n * 2) && fits_i32(start + space) && fits_i32(2 * space)
        },
        Spacing::Between => fits_i32(n) && n >= 2,
        Spacing::Even => {
            let space = div_trunc(unused, n + 1);
            fits_i32(n) && fits_i32(n + 1) && fits_i32(start + space)
        },
        Spacing::Stretch => fits_i32(n) && n >= 1,
        Spacing::NoSpacing => match p.axis_alignment {
            Alignment::Start => true,
            Alignment::Center => fits_i32(size - tg) && fits_i32(size - tg - content)
                && fits_i32(start + div_trunc(size - tg - content, 2)),
            Alignment::End => fits_i32(start + size) && fits_i32(start + size - tg)
                && fits_i32(start + size - tg - content),
        },
    }
}

/// Where a sub-element of size `el_cross` across the main axis sits across it.
pub open spec fn cross_coord(a: Alignment, cross_start: int, cross_size: int, el_cross: int) -> int {
    match a {
        Alignment::Start => cross_start,
        Alignment::Center => cross_start + div_trunc(cross_size - el_cross, 2),
        Alignment::End => cross_start + cross_size - el_cross,
    }
}

/// Whether `cross_coord` computes without overflow.
pub open spec fn cross_coord_fits(a: Alignment, cross_start: int, cross_size: int, el_cross: int) -> bool {
    match a {
        Alignment::Start => true,
        Alignment::Center => fits_i32(cross_size - el_cross) && fits_i32(cross_start + div_trunc(cross_size - el_cross, 2)),
        Alignment::End => fits_i32(cross_start + cross_size) && fits_i32(cross_start + cross_size - el_cross),
    }
}

/// Where the `j`-th sub-element of a flex layout starts along the main axis: after the start,
/// the gaps and extra space before it and the sizes of the sub-elements before it.
pub open spec fn flex_main(p: Flex, coord0: int, inc: int, cms: Seq<ElementMeasure>, j: int) -> int {
    coord0 + j * (p.gap as i32 + inc) + sum_main(p.direction, cms.take(j))
}

/// The positions that arranging gives the sub-elements of `el`, in order.
pub open spec fn child_positions(el: Element, m: ElementMeasure, all: Seq<ElementMeasure>) -> Seq<Vec2i> {
    let cs = el.elements@;
    let cms = child_sizes(all, cs);
    let (ix, iy) = inner_start(m);
    match el.layout {
        Layout::Sequential | Layout::Scroll => Seq::new(
            cs.len(),
            |j: int| Vec2i { x: ix as i32, y: (iy + sum_h(cms.take(j))) as i32 },
        ),
        Layout::Flex { properties } => {
            let (start, cstart, size, csize, content) = flex_frame(properties, m, cms);
            let (coord0, inc) = flex_start(properties, start, size, content, cs.len() as int);
            Seq::new(
                cs.len(),
                |j: int| {
                    let main = flex_main(properties, coord0, inc, cms, j);
                    let cross = cross_coord(properties.cross_alignment, cstart, csize, cross_size(properties.direction, cms[j]));
                    match properties.direction {
                        FlexDirection::Row => Vec2i { x: main as i32, y: cross as i32 },
                        FlexDirection::Col => Vec2i { x: cross as i32, y: main as i32 },
                    }
                },
            )
        },
        Layout::Grid { .. } => Seq::empty(),
    }
}

/// The size of the inner box of `m` along `dir`.
pub open spec fn inner_main_size(dir: FlexDirection, m: ElementMeasure) -> int {
    match dir {
        FlexDirection::Row => m.inner_box.w as int,
        FlexDirection::Col => m.inner_box.h as int,
    }
}

/// `m` grown by `d` along `dir`: its size and its inner box.
pub open spec fn grown(m: ElementMeasure, dir: FlexDirection, d: int) -> ElementMeasure {
    match dir {
        FlexDirection::Row => ElementMeasure {
            size: Vec2i { x: (m.size.x + d) as i32, ..m.size },
            inner_box: RenderBox { w: (m.inner_box.w + d) as i32, ..m.inner_box },
            ..m
        },
        FlexDirection::Col => ElementMeasure {
            size: Vec2i { y: (m.size.y + d) as i32, ..m.size },
            inner_box: RenderBox { h: (m.inner_box.h + d) as i32, ..m.inner_box },
            ..m
        },
    }
}

/// `all` with each sub-element `cs[j]` grown by `d` along `dir`, in order.
pub open spec fn grow(all: Seq<ElementMeasure>, cs: Seq<usize>, dir: FlexDirection, d: int) -> Seq<ElementMeasure>
    decreases cs.len(),
{
    if cs.len() == 0 {
        all
    } else {
        let prev = grow(all, cs.drop_last(), dir, d);
        prev.update(cs.last() as int, grown(prev[cs.last() as int], dir, d))
    }
}

/// Whether growing each sub-element `cs[j]` by `d` along `dir` stays within `i32`.
pub open spec fn grow_fits(all: Seq<ElementMeasure>, cs: Seq<usize>, dir: FlexDirection, d: int) -> bool {
    forall|j: int|
        0 <= j < cs.len() ==> {
            let cur = #[trigger] grow(all, cs.take(j), dir, d)[cs[j] as int];
            fits_i32(main_size(dir, cur) + d) && fits_i32(inner_main_size(dir, cur) + d)
        }
}

/// Whether `el` is a flex frame that stretches its sub-elements.
pub open spec fn stretches(el: Element) -> bool {
    match el.layout {
        Layout::Flex { properties } => properties.spacing is Stretch,
        _ => false,
    }
}

/// The extra space after each sub-element of a flex frame `el` with measure `m`; under the
/// stretch spacing, what each sub-element grows by.
pub open spec fn flex_inc(p: Flex, el: Element, m: ElementMeasure, all: Seq<ElementMeasure>) -> int {
    let (start, cstart, size, csize, content) = flex_frame(p, m, child_sizes(all, el.elements@));
    flex_start(p, start, size, content, el.elements@.len() as int).1
}

/// Growing keeps the number of measures and every position, and leaves alone every measure that
/// is not a sub-element's.
pub proof fn lemma_grow_facts(all: Seq<ElementMeasure>, cs: Seq<usize>, dir: FlexDirection, d: int)
    requires
        forall|j: int| 0 <= j < cs.len() ==> #[trigger] cs[j] < all.len(),
    ensures
        grow(all, cs, dir, d).len() == all.len(),
        forall|i: int| 0 <= i < all.len() ==> (#[trigger] grow(all, cs, dir, d)[i]).position == all[i].position,
        forall|i: int|
            0 <= i < all.len() && (forall|a: int| 0 <= a < cs.len() ==> #[trigger] cs[a] != i)
                ==> #[trigger] grow(all, cs, dir, d)[i] == all[i],
    decreases cs.len(),
{
    if cs.len() > 0 {
        let front = cs.drop_last();
        assert forall|j: int| 0 <= j < front.len() implies #[trigger] front[j] < all.len() by {
            assert(front[j] == cs[j]);
        }
        lemma_grow_facts(all, front, dir, d);
        assert(cs.last() == cs[cs.len() - 1]);
        assert forall|i: int|
            0 <= i < all.len() && (forall|a: int| 0 <= a < cs.len() ==> #[trigger] cs[a] != i) implies
            #[trigger] grow(all, cs, dir, d)[i] == all[i] by {
            assert forall|a: int| 0 <= a < front.len() implies #[trigger] front[a] != i by {
                assert(front[a] == cs[a]);
            }
            assert(cs[cs.len() - 1] != i);
        }
    }
}

/// With distinct sub-elements, each sub-element is grown once.
pub proof fn lemma_grow_distinct(all: Seq<ElementMeasure>, cs: Seq<usize>, dir: FlexDirection, d: int, j: int)
    requires
        0 <= j < cs.len(),
        forall|a: int| 0 <= a < cs.len() ==> #[trigger] cs[a] < all.len(),
        forall|a: int, b: int| 0 <= a < b < cs.len() ==> #[trigger] cs[a] != #[trigger] cs[b],
    ensures
        grow(all, cs, dir, d)[cs[j] as int] == grown(all[cs[j] as int], dir, d),
    decreases cs.len(),
{
    let front = cs.drop_last();
    assert forall|a: int| 0 <= a < front.len() implies #[trigger] front[a] < all.len() by {
        assert(front[a] == cs[a]);
    }
    lemma_grow_facts(all, front, dir, d);
    assert(cs.last() == cs[cs.len() - 1]);
    if j < cs.len() - 1 {
        assert(cs[j] != cs[cs.len() - 1]);
        if cs.len() > 1 {
            assert forall|a: int, b: int| 0 <= a < b < front.len() implies #[trigger] front[a] != #[trigger] front[b] by {
                assert(front[a] == cs[a] && front[b] == cs[b]);
            }
        }
        lemma_grow_distinct(all, front, dir, d, j);
    } else {
        assert forall|a: int| 0 <= a < front.len() implies #[trigger] front[a] != cs[j] by {
            assert(front[a] == cs[a]);
        }
    }
}

#[verifier::opaque]
/// The measures after arranging the sub-elements of `el`, whose own measure is `m`.
pub open spec fn arrange_spec(el: Element, m: ElementMeasure, all: Seq<ElementMeasure>) -> Seq<ElementMeasure> {
    let placed = place(all, el.elements@, child_positions(el, m, all));
    match el.layout {
        Layout::Grid { .. } => all,
        Layout::Flex { properties } => if properties.spacing is Stretch {
            grow(placed, el.elements@, properties.direction, flex_inc(properties, el, m, all))
        } else {
            placed
        },
        _ => placed,
    }
}

#[verifier::opaque]
/// Whether arranging the sub-elements of `el` computes without overflow or division by zero.
pub open spec fn arrange_fits(el: Element, m: ElementMeasure, all: Seq<ElementMeasure>) -> bool {
    let cs = el.elements@;
    let cms = child_sizes(all, cs);
    let (ix, iy) = inner_start(m);
    &&& forall|j: int| 0 <= j < cs.len() ==> #[trigger] cs[j] < all.len()
    &&& cs.len() > 0 ==> {
        &&& widths_fit(cms)
        &&& heights_fit(cms)
        &&& fits_i32(ix)
        &&& fits_i32(iy)
        &&& match el.layout {
            Layout::Sequential | Layout::Scroll => forall|j: int|
                0 <= j <= cs.len() ==> #[trigger] fits_i32(iy + sum_h(cms.take(j))),
            Layout::Flex { properties } => {
                let (start, cstart, size, csize, content) = flex_frame(properties, m, cms);
                let (coord0, inc) = flex_start(properties, start, size, content, cs.len() as int);
                let g = properties.gap as i32;
                &&& fits_usize((cs.len() - 1) * properties.gap)
                &&& flex_start_fits(properties, start, size, content, cs.len() as int)
                &&& fits_i32(g + inc)
                &&& forall|j: int|
                    0 <= j < cs.len() ==> {
                        &&& cross_coord_fits(properties.cross_alignment, cstart, csize, cross_size(properties.direction, #[trigger] cms[j]))
                        &&& fits_i32((g + inc) + main_size(properties.direction, cms[j]))
                        &&& fits_i32(flex_main(properties, coord0, inc, cms, j + 1))
                    }
                &&& properties.spacing is Stretch ==> grow_fits(
                    place(all, cs, child_positions(el, m, all)),
                    cs,
                    properties.direction,
                    inc,
                )
            },
            Layout::Grid { .. } => true,
        }
    }
}

/// The measures after arranging, in turn, the sub-elements of each element listed in `ro`,
/// each by its own measure as it stands at its turn.
pub open spec fn arranged(els: Seq<Element>, ms: Seq<ElementMeasure>, ro: Seq<usize>) -> Seq<ElementMeasure>
    decreases ro.len(),
{
    if ro.len() == 0 {
        ms
    } else {
        let prev = arranged(els, ms, ro.drop_last());
        let x = ro.last() as int;
        arrange_spec(els[x], prev[x], prev)
    }
}

/// Arranging one element keeps the number of measures.
pub proof fn lemma_arrange_spec_len(el: Element, m: ElementMeasure, all: Seq<ElementMeasure>)
    requires
        arrange_fits(el, m, all),
    ensures
        arrange_spec(el, m, all).len() == all.len(),
{
    reveal(arrange_fits);
    lemma_arrange_spec_untouched(el, m, all, -1);
}

/// Arranging the sub-elements of `el` keeps the number of measures, and leaves alone every
/// measure that is not a sub-element's.
pub proof fn lemma_arrange_spec_untouched(el: Element, m: ElementMeasure, all: Seq<ElementMeasure>, i: int)
    requires
        forall|j: int| 0 <= j < el.elements@.len() ==> #[trigger] el.elements@[j] < all.len(),
    ensures
        arrange_spec(el, m, all).len() == all.len(),
        0 <= i < all.len() && (forall|a: int| 0 <= a < el.elements@.len() ==> #[trigger] el.elements@[a] != i)
            ==> arrange_spec(el, m, all)[i] == all[i],
{
    reveal(arrange_spec);
    let cs = el.elements@;
    let ps = child_positions(el, m, all);
    let placed = place(all, cs, ps);
    lemma_place_keeps_sizes(all, cs, ps);
    if 0 <= i < all.len() && (forall|a: int| 0 <= a < cs.len() ==> #[trigger] cs[a] != i) {
        lemma_place_untouched(all, cs, ps, i);
    }
    if let Layout::Flex { properties } = el.layout {
        lemma_grow_facts(placed, cs, properties.direction, flex_inc(properties, el, m, all));
    }
}

/// Arranging, element after element, keeps the number of measures.
pub proof fn lemma_arranged_len(els: Seq<Element>, ms: Seq<ElementMeasure>, ro: Seq<usize>)
    requires
        ms.len() == els.len(),
        forall|k: int| 0 <= k < ro.len() ==> #[trigger] ro[k] < els.len(),
        forall|k: int, j: int|
            0 <= k < ro.len() && 0 <= j < els[ro[k] as int].elements@.len() ==> #[trigger] els[ro[k] as int].elements@[j] < els.len(),
    ensures
        arranged(els, ms, ro).len() == ms.len(),
    decreases ro.len(),
{
    if ro.len() > 0 {
        lemma_arranged_len(els, ms, ro.drop_last());
        let x = ro.last() as int;
        assert(ro.last() == ro[ro.len() - 1]);
        let el = els[x];
        let prev = arranged(els, ms, ro.drop_last());
        assert forall|k: int, j: int|
            0 <= k < ro.drop_last().len() && 0 <= j < els[ro.drop_last()[k] as int].elements@.len() implies
            #[trigger] els[ro.drop_last()[k] as int].elements@[j] < els.len() by {
            assert(ro.drop_last()[k] == ro[k]);
        }
        assert forall|j: int| 0 <= j < el.elements@.len() implies #[trigger] el.elements@[j] < prev.len() by {
            assert(els[ro[ro.len() - 1] as int].elements@[j] < els.len());
        }
        lemma_arrange_spec_untouched(el, prev[x], prev, -1);
    }
}

proof fn lemma_untouched_from(els: Seq<Element>, ms: Seq<ElementMeasure>, ro: Seq<usize>, from: int, q: int, i: int)
    requires
        tree_wf(els),
        ms.len() == els.len(),
        forall|k: int| 0 <= k < ro.len() ==> #[trigger] ro[k] < els.len(),
        0 <= from <= q <= ro.len(),
        0 <= i < els.len(),
        forall|k: int, j: int|
            from <= k < q && 0 <= j < els[ro[k] as int].elements@.len() ==> #[trigger] els[ro[k] as int].elements@[j] != i,
    ensures
        arranged(els, ms, ro.take(q))[i] == arranged(els, ms, ro.take(from))[i],
    decreases q - from,
{
    reveal(arrange_spec);
    if q > from {
        lemma_untouched_from(els, ms, ro, from, q - 1, i);
        assert(ro.take(q).drop_last() =~= ro.take(q - 1));
        assert(ro.take(q).last() == ro[q - 1]);
        let x = ro[q - 1] as int;
        let prev = arranged(els, ms, ro.take(q - 1));
        assert(forall|k: int| 0 <= k < ro.take(q - 1).len() ==> #[trigger] ro.take(q - 1)[k] < els.len());
        lemma_arranged_len(els, ms, ro.take(q - 1));
        let cs = els[x].elements@;
        assert forall|a: int| 0 <= a < cs.len() implies #[trigger] cs[a] < prev.len() by {
            assert(0 < cs[a] < els.len());
        }
        assert forall|a: int| 0 <= a < cs.len() implies #[trigger] cs[a] != i by {
            assert(els[ro[q - 1] as int].elements@[a] != i);
        }
        lemma_arrange_spec_untouched(els[x], prev[x], prev, i);
    }
}

/// In a tree, arranging places each sub-element where its frame's layout puts it, relative to
/// the frame's own final position: the final measures agree with `child_positions` of the
/// frame's final measure. (A frame that stretches its sub-elements places them by the sizes
/// they had before it grew them, so for it the law is stated by `lemma_flex_even_steps`.)
pub proof fn lemma_arranged_child_position(els: Seq<Element>, ms: Seq<ElementMeasure>, ro: Seq<usize>, k: int, j: int)
    requires
        tree_wf(els),
        is_render_order(els, ro),
        ms.len() == els.len(),
        0 <= k < ro.len(),
        !(els[ro[k] as int].layout is Grid),
        !stretches(els[ro[k] as int]),
        0 <= j < els[ro[k] as int].elements@.len(),
    ensures
        ({
            let fin = arranged(els, ms, ro);
            let x = ro[k] as int;
            let c = els[x].elements@[j] as int;
            fin[c].position == child_positions(els[x], fin[x], fin)[j]
        }),
{
    reveal(arrange_spec);
    let x = ro[k] as int;
    let el = els[x];
    let cs = el.elements@;
    let c = cs[j] as int;
    let n = ro.len() as int;
    let prev = arranged(els, ms, ro.take(k));
    let fin = arranged(els, ms, ro);
    assert(ro.take(n) =~= ro);
    lemma_render_order_distinct(els, ro);
    assert(forall|q: int| 0 <= q < ro.take(k).len() ==> #[trigger] ro.take(k)[q] < els.len());
    lemma_arranged_len(els, ms, ro.take(k));
    lemma_arranged_len(els, ms, ro);
    // The frame's own step places the sub-elements.
    assert(ro.take(k + 1).drop_last() =~= ro.take(k));
    assert(ro.take(k + 1).last() == ro[k]);
    assert forall|a: int| 0 <= a < cs.len() implies #[trigger] cs[a] < prev.len() by {
        assert(0 < cs[a] < els.len());
    }
    assert forall|a: int, b: int| 0 <= a < b < cs.len() implies #[trigger] cs[a] != #[trigger] cs[b] by {
        if cs[a] == cs[b] {
            assert(els[x].elements@[a] == els[x].elements@[b]);
        }
    }
    let ps = child_positions(el, prev[x], prev);
    assert(arranged(els, ms, ro.take(k + 1)) == place(prev, cs, ps));
    // Later steps do not touch the sub-elements: only their frame lists them.
    assert forall|a: int| 0 <= a < cs.len() implies
        #[trigger] fin[cs[a] as int] == with_position(prev[cs[a] as int], ps[a]) by {
        let ca = cs[a] as int;
        lemma_place_distinct(prev, cs, ps, a);
        assert forall|q: int, jj: int|
            k + 1 <= q < n && 0 <= jj < els[ro[q] as int].elements@.len() implies #[trigger] els[ro[q] as int].elements@[jj] != ca by {
            if els[ro[q] as int].elements@[jj] == ca {
                assert(els[ro[q] as int].elements@[jj] == els[ro[k] as int].elements@[a]);
                assert(ro[q] != ro[k]);
            }
        }
        lemma_untouched_from(els, ms, ro, k + 1, n, ca);
    }
    // Nor the frame itself, from its own step on: it is the root or its parent came earlier.
    assert forall|q: int, jj: int|
        k <= q < n && 0 <= jj < els[ro[q] as int].elements@.len() implies #[trigger] els[ro[q] as int].elements@[jj] != x by {
        if els[ro[q] as int].elements@[jj] == x {
            assert(k != 0) by {
                if k == 0 {
                    assert(ro[0] == 0);
                }
            }
            let pp = lemma_parent_position(els, ro, k);
            assert(els[ro[pp.0] as int].elements@[pp.1] == els[ro[q] as int].elements@[jj]);
            assert(ro[pp.0] == ro[q]);
            assert(pp.0 < q);
        }
    }
    lemma_untouched_from(els, ms, ro, k, n, x);
    // The sub-elements' sizes are the same before the frame's step and at the end.
    assert(child_sizes(prev, cs) =~= child_sizes(fin, cs));
}

/// Arranging moves sub-elements only: every measure keeps its size and inner box, and the
/// number of measures stays the same.
pub proof fn lemma_place_keeps_sizes(all: Seq<ElementMeasure>, cs: Seq<usize>, ps: Seq<Vec2i>)
    requires
        forall|j: int| 0 <= j < cs.len() ==> #[trigger] cs[j] < all.len(),
    ensures
        place(all, cs, ps).len() == all.len(),
        forall|i: int|
            0 <= i < all.len() ==> (#[trigger] place(all, cs, ps)[i]).size == all[i].size
                && place(all, cs, ps)[i].inner_box == all[i].inner_box,
    decreases cs.len(),
{
    if cs.len() != 0 && ps.len() == cs.len() {
        lemma_place_keeps_sizes(all, cs.drop_last(), ps.drop_last());
        assert(cs.last() == cs[cs.len() - 1]);
    }
}

/// Arranging, element after element, where no frame stretches its sub-elements, never changes a
/// size or an inner box, nor the number of measures: only positions move.
pub proof fn lemma_arranged_keeps_sizes(els: Seq<Element>, ms: Seq<ElementMeasure>, ro: Seq<usize>)
    requires
        tree_wf(els),
        ms.len() == els.len(),
        forall|k: int| 0 <= k < ro.len() ==> #[trigger] ro[k] < els.len(),
        forall|k: int| 0 <= k < ro.len() ==> !stretches(#[trigger] els[ro[k] as int]),
    ensures
        arranged(els, ms, ro).len() == ms.len(),
        forall|i: int|
            0 <= i < ms.len() ==> (#[trigger] arranged(els, ms, ro)[i]).size == ms[i].size
                && arranged(els, ms, ro)[i].inner_box == ms[i].inner_box,
    decreases ro.len(),
{
    reveal(arrange_spec);
    if ro.len() > 0 {
        lemma_arranged_keeps_sizes(els, ms, ro.drop_last());
        let prev = arranged(els, ms, ro.drop_last());
        let x = ro.last() as int;
        assert(ro.last() == ro[ro.len() - 1]);
        let el = els[x];
        assert forall|j: int| 0 <= j < el.elements@.len() implies #[trigger] el.elements@[j] < prev.len() by {
            assert(0 < el.elements@[j] < els.len());
        }
        assert(!stretches(els[ro[ro.len() - 1] as int]));
        lemma_place_keeps_sizes(prev, el.elements@, child_positions(el, prev[x], prev));
    }
}

/// Arranging leaves alone every measure that is not a sub-element's.
pub proof fn lemma_place_untouched(all: Seq<ElementMeasure>, cs: Seq<usize>, ps: Seq<Vec2i>, i: int)
    requires
        0 <= i < all.len(),
        forall|a: int| 0 <= a < cs.len() ==> #[trigger] cs[a] < all.len(),
        forall|a: int| 0 <= a < cs.len() ==> #[trigger] cs[a] != i,
    ensures
        place(all, cs, ps)[i] == all[i],
    decreases cs.len(),
{
    if cs.len() != 0 && ps.len() == cs.len() {
        lemma_place_keeps_sizes(all, cs.drop_last(), ps.drop_last());
        lemma_place_untouched(all, cs.drop_last(), ps.drop_last(), i);
        assert(cs.last() == cs[cs.len() - 1]);
    }
}

/// With distinct sub-elements, each sub-element ends up where its own position says.
pub proof fn lemma_place_distinct(all: Seq<ElementMeasure>, cs: Seq<usize>, ps: Seq<Vec2i>, j: int)
    requires
        cs.len() == ps.len(),
        0 <= j < cs.len(),
        forall|a: int| 0 <= a < cs.len() ==> #[trigger] cs[a] < all.len(),
        forall|a: int, b: int| 0 <= a < b < cs.len() ==> #[trigger] cs[a] != #[trigger] cs[b],
    ensures
        place(all, cs, ps)[cs[j] as int] == with_position(all[cs[j] as int], ps[j]),
    decreases cs.len(),
{
    let prev = place(all, cs.drop_last(), ps.drop_last());
    lemma_place_keeps_sizes(all, cs.drop_last(), ps.drop_last());
    assert(cs.last() == cs[cs.len() - 1]);
    if j < cs.len() - 1 {
        lemma_place_distinct(all, cs.drop_last(), ps.drop_last(), j);
        assert(cs[j] != cs[cs.len() - 1]);
    } else {
        assert(prev[cs[j] as int].size == all[cs[j] as int].size);
        assert(prev[cs[j] as int].inner_box == all[cs[j] as int].inner_box);
    }
}

/// A sequential (or scroll) frame stacks its sub-elements: all start at the left edge of its
/// inner box, the first at its top, each next one right below the one before it.
pub proof fn lemma_sequential_stacks(el: Element, m: ElementMeasure, all: Seq<ElementMeasure>, j: int)
    requires
        el.layout is Sequential || el.layout is Scroll,
        arrange_fits(el, m, all),
        forall|a: int, b: int| 0 <= a < b < el.elements@.len() ==> #[trigger] el.elements@[a] != #[trigger] el.elements@[b],
        0 <= j < el.elements@.len(),
    ensures
        ({
            let r = arrange_spec(el, m, all);
            let cs = el.elements@;
            &&& r[cs[j] as int].position.x == m.position.x + m.inner_box.x
            &&& r[cs[0] as int].position.y == m.position.y + m.inner_box.y
            &&& j + 1 < cs.len() ==> r[cs[j + 1] as int].position.y == r[cs[j] as int].position.y + all[cs[j] as int].size.y
        }),
{
    reveal(arrange_spec);
    reveal(arrange_fits);
    let cs = el.elements@;
    let cms = child_sizes(all, cs);
    let ps = child_positions(el, m, all);
    lemma_place_distinct(all, cs, ps, j);
    lemma_place_distinct(all, cs, ps, 0);
    assert(cms.take(0) =~= Seq::<ElementMeasure>::empty());
    assert(fits_i32(m.position.y + m.inner_box.y + sum_h(cms.take(j))));
    if j + 1 < cs.len() {
        lemma_place_distinct(all, cs, ps, j + 1);
        lemma_sums_step(cms, j);
        assert(fits_i32(m.position.y + m.inner_box.y + sum_h(cms.take(j + 1))));
    }
}

/// A flex layout without spacing that aligns its items at the end places the far edge of its
/// last sub-element on the far edge of its inner box (the frame's position plus the inner box's
/// corner and size), and one that aligns them at the start places its first sub-element at the
/// start of its inner box.
pub proof fn lemma_flex_alignment_edges(el: Element, m: ElementMeasure, all: Seq<ElementMeasure>, p: Flex)
    requires
        el.layout == (Layout::Flex { properties: p }),
        p.spacing == Spacing::NoSpacing,
        arrange_fits(el, m, all),
        1 <= el.elements@.len() <= usize::MAX,
        forall|a: int, b: int| 0 <= a < b < el.elements@.len() ==> #[trigger] el.elements@[a] != #[trigger] el.elements@[b],
        (el.elements@.len() - 1) * p.gap <= i32::MAX,
    ensures
        ({
            let r = arrange_spec(el, m, all);
            let cs = el.elements@;
            let last = cs[cs.len() - 1] as int;
            &&& p.axis_alignment == Alignment::Start ==> match p.direction {
                FlexDirection::Row => r[cs[0] as int].position.x == m.position.x + m.inner_box.x,
                FlexDirection::Col => r[cs[0] as int].position.y == m.position.y + m.inner_box.y,
            }
            &&& p.axis_alignment == Alignment::End ==> match p.direction {
                FlexDirection::Row => r[last].position.x + all[last].size.x == m.position.x + m.inner_box.x + m.inner_box.w,
                FlexDirection::Col => r[last].position.y + all[last].size.y == m.position.y + m.inner_box.y + m.inner_box.h,
            }
        }),
{
    reveal(arrange_spec);
    reveal(arrange_fits);
    let cs = el.elements@;
    let n = cs.len() as int;
    let cms = child_sizes(all, cs);
    let ps = child_positions(el, m, all);
    lemma_place_distinct(all, cs, ps, 0);
    lemma_place_distinct(all, cs, ps, n - 1);
    let (start, cstart, size, csize, content) = flex_frame(p, m, cms);
    let (coord0, inc) = flex_start(p, start, size, content, n);
    assert(cms.take(0) =~= Seq::<ElementMeasure>::empty());
    let g = p.gap as i32;
    assert(fits_i32(flex_main(p, coord0, inc, cms, n)));
    assert(fits_i32(flex_main(p, coord0, inc, cms, 1)));
    assert(fits_i32((g + inc) + main_size(p.direction, cms[0])));
    if p.axis_alignment == Alignment::End {
        let tg = total_gap(p.gap, n as usize) as int;
        let prod = (n - 1) * p.gap;
        assert(0 <= prod <= i32::MAX) by (nonlinear_arith)
            requires
                prod == (n - 1) * p.gap,
                prod <= i32::MAX,
                n >= 1,
                p.gap >= 0,
        ;
        assert(tg == prod);
        lemma_sums_step(cms, n - 1);
        lemma_take_full(cms);
        if n >= 2 {
            assert(p.gap <= i32::MAX) by (nonlinear_arith)
                requires
                    (n - 1) * p.gap <= i32::MAX,
                    n >= 2,
                    p.gap >= 0,
            ;
            assert(g == p.gap);
            assert((n - 1) * g == prod);
        } else {
            assert((n - 1) * g == 0);
        }
        assert(fits_i32(flex_main(p, coord0, inc, cms, n - 1)));
    }
}

/// The position of `m` along `dir`.
pub open spec fn main_pos(dir: FlexDirection, m: ElementMeasure) -> int {
    match dir {
        FlexDirection::Row => m.position.x as int,
        FlexDirection::Col => m.position.y as int,
    }
}

/// A flex layout spaces its sub-elements evenly: the first starts where `flex_start` says, and
/// each next one starts the same distance (the gap plus the extra space of the spacing) after
/// the previous one ends.
pub proof fn lemma_flex_even_steps(el: Element, m: ElementMeasure, all: Seq<ElementMeasure>, p: Flex, j: int)
    requires
        el.layout == (Layout::Flex { properties: p }),
        arrange_fits(el, m, all),
        forall|a: int, b: int| 0 <= a < b < el.elements@.len() ==> #[trigger] el.elements@[a] != #[trigger] el.elements@[b],
        0 <= j < el.elements@.len(),
    ensures
        ({
            let r = arrange_spec(el, m, all);
            let cs = el.elements@;
            let (start, cstart, size, csize, content) = flex_frame(p, m, child_sizes(all, cs));
            let (coord0, inc) = flex_start(p, start, size, content, cs.len() as int);
            &&& main_pos(p.direction, r[cs[0] as int]) == coord0
            &&& j + 1 < cs.len() ==> main_pos(p.direction, r[cs[j + 1] as int])
                == main_pos(p.direction, r[cs[j] as int]) + main_size(p.direction, all[cs[j] as int]) + (p.gap as i32) + inc
            &&& p.spacing is Stretch ==> main_size(p.direction, r[cs[j] as int]) == main_size(p.direction, all[cs[j] as int]) + inc
                && inner_main_size(p.direction, r[cs[j] as int]) == inner_main_size(p.direction, all[cs[j] as int]) + inc
            &&& !(p.spacing is Stretch) ==> main_size(p.direction, r[cs[j] as int]) == main_size(p.direction, all[cs[j] as int])
        }),
{
    reveal(arrange_spec);
    reveal(arrange_fits);
    let cs = el.elements@;
    let n = cs.len() as int;
    let cms = child_sizes(all, cs);
    let ps = child_positions(el, m, all);
    let placed = place(all, cs, ps);
    lemma_place_distinct(all, cs, ps, 0);
    lemma_place_distinct(all, cs, ps, j);
    if j + 1 < n {
        lemma_place_distinct(all, cs, ps, j + 1);
    }
    lemma_place_keeps_sizes(all, cs, ps);
    if p.spacing is Stretch {
        let d = flex_inc(p, el, m, all);
        lemma_grow_facts(placed, cs, p.direction, d);
        lemma_grow_distinct(placed, cs, p.direction, d, j);
        let front = cs.take(j);
        assert forall|a: int| 0 <= a < front.len() implies #[trigger] front[a] < placed.len() by {
            assert(front[a] == cs[a]);
        }
        lemma_grow_facts(placed, front, p.direction, d);
        assert forall|a: int| 0 <= a < front.len() implies #[trigger] front[a] != cs[j] as int by {
            assert(front[a] == cs[a]);
        }
        assert(grow(placed, front, p.direction, d)[cs[j] as int] == placed[cs[j] as int]);
    }
    let (start, cstart, size, csize, content) = flex_frame(p, m, cms);
    let (coord0, inc) = flex_start(p, start, size, content, n);
    let g = p.gap as i32;
    assert(cms.take(0) =~= Seq::<ElementMeasure>::empty());
    assert(fits_i32(flex_main(p, coord0, inc, cms, j + 1)));
    if j > 0 {
        assert(fits_i32(flex_main(p, coord0, inc, cms, (j - 1) + 1)));
    }
    assert(fits_i32(flex_main(p, coord0, inc, cms, 1int)));
    assert(fits_i32((g + inc) + main_size(p.direction, cms[0])));
    if j + 1 < n {
        lemma_place_distinct(all, cs, ps, j + 1);
        lemma_sums_step(cms, j);
        assert((j + 1) * (g + inc) == j * (g + inc) + (g + inc)) by (nonlinear_arith);
    }
}

/// A flex layout that stretches its sub-elements lays them out from the start of its inner box
/// and fills it along the main axis: the far edge of the last (grown) sub-element lies on the
/// far edge of the inner box less what is left of the unused space once it is shared out, which
/// is less than one pixel per sub-element when there is unused space.
pub proof fn lemma_stretch_fills(el: Element, m: ElementMeasure, all: Seq<ElementMeasure>, p: Flex)
    requires
        el.layout == (Layout::Flex { properties: p }),
        p.spacing == Spacing::Stretch,
        arrange_fits(el, m, all),
        1 <= el.elements@.len() <= usize::MAX,
        forall|a: int, b: int| 0 <= a < b < el.elements@.len() ==> #[trigger] el.elements@[a] != #[trigger] el.elements@[b],
        (el.elements@.len() - 1) * p.gap <= i32::MAX,
    ensures
        ({
            let r = arrange_spec(el, m, all);
            let cs = el.elements@;
            let n = cs.len() as int;
            let (start, cstart, size, csize, content) = flex_frame(p, m, child_sizes(all, cs));
            let unused = size - (total_gap(p.gap, cs.len() as usize) + content);
            let left = unused - n * div_trunc(unused, n);
            let last = cs[n - 1] as int;
            &&& main_pos(p.direction, r[cs[0] as int]) == start
            &&& main_pos(p.direction, r[last]) + main_size(p.direction, r[last]) == start + size - left
            &&& unused >= 0 ==> 0 <= left < n
        }),
{
    reveal(arrange_spec);
    reveal(arrange_fits);
    let cs = el.elements@;
    let n = cs.len() as int;
    let cms = child_sizes(all, cs);
    let ps = child_positions(el, m, all);
    let placed = place(all, cs, ps);
    let dir = p.direction;
    lemma_flex_even_steps(el, m, all, p, 0);
    lemma_flex_even_steps(el, m, all, p, n - 1);
    let (start, cstart, size, csize, content) = flex_frame(p, m, cms);
    let (coord0, inc) = flex_start(p, start, size, content, n);
    let tg = total_gap(p.gap, n as usize) as int;
    let unused = size - (tg + content);
    let g = p.gap as i32;
    let prod = (n - 1) * p.gap;
    assert(0 <= prod <= i32::MAX) by (nonlinear_arith)
        requires
            prod == (n - 1) * p.gap,
            prod <= i32::MAX,
            n >= 1,
            p.gap >= 0,
    ;
    assert(tg == prod);
    if n >= 2 {
        assert(p.gap <= i32::MAX) by (nonlinear_arith)
            requires
                (n - 1) * p.gap <= i32::MAX,
                n >= 2,
                p.gap >= 0,
        ;
        assert(g == p.gap);
        assert((n - 1) * g == prod);
    } else {
        assert((n - 1) * g == 0);
    }
    // The last sub-element starts after the others, each with its gap and share
    lemma_place_distinct(all, cs, ps, n - 1);
    lemma_place_keeps_sizes(all, cs, ps);
    lemma_grow_facts(placed, cs, dir, inc);
    assert(cms.take(0) =~= Seq::<ElementMeasure>::empty());
    if n >= 2 {
        assert(fits_i32(flex_main(p, coord0, inc, cms, (n - 2) + 1)));
    }
    assert(fits_i32(flex_main(p, coord0, inc, cms, n - 1)));
    lemma_sums_step(cms, n - 1);
    lemma_take_full(cms);
    assert(main_pos(dir, placed[cs[n - 1] as int]) == flex_main(p, coord0, inc, cms, n - 1));
    assert(main_size(dir, all[cs[n - 1] as int]) == main_size(dir, cms[n - 1]));
    assert((n - 1) * (g + inc) == (n - 1) * g + (n - 1) * inc) by (nonlinear_arith);
    assert(n * inc == (n - 1) * inc + inc) by (nonlinear_arith);
    if unused >= 0 {
        assert(inc == unused / n);
        assert(0 <= unused - n * (unused / n) < n) by (nonlinear_arith)
            requires
                unused >= 0,
                n >= 1,
        ;
    }
}

/// Where a flex frame puts its sub-elements against its inner box, stated on the frame's own
/// position and inner box: along the main axis (x for a row, y for a column) the first
/// sub-element starts at the inner box's near edge when the items are aligned at the start
/// without spacing, or spaced between, or stretched; across it (y for a row, x for a column)
/// every sub-element aligned at the start sits on the inner box's near edge, one aligned at the
/// end ends on its far edge, and a centered one leaves space on both sides that differs by at
/// most one.
pub proof fn lemma_flex_inner_box_edges(el: Element, m: ElementMeasure, all: Seq<ElementMeasure>, p: Flex, j: int)
    requires
        el.layout == (Layout::Flex { properties: p }),
        arrange_fits(el, m, all),
        forall|a: int, b: int| 0 <= a < b < el.elements@.len() ==> #[trigger] el.elements@[a] != #[trigger] el.elements@[b],
        0 <= j < el.elements@.len(),
    ensures
        ({
            let r = arrange_spec(el, m, all);
            let cs = el.elements@;
            let first = r[cs[0] as int];
            let cur = r[cs[j] as int];
            let left = m.position.x + m.inner_box.x;
            let top = m.position.y + m.inner_box.y;
            let right = left + m.inner_box.w;
            let bottom = top + m.inner_box.h;
            &&& ((p.spacing == Spacing::NoSpacing && p.axis_alignment == Alignment::Start)
                || p.spacing == Spacing::Between || p.spacing == Spacing::Stretch) ==> match p.direction {
                FlexDirection::Row => first.position.x == left,
                FlexDirection::Col => first.position.y == top,
            }
            &&& p.cross_alignment == Alignment::Start ==> match p.direction {
                FlexDirection::Row => cur.position.y == top,
                FlexDirection::Col => cur.position.x == left,
            }
            &&& p.cross_alignment == Alignment::End ==> match p.direction {
                FlexDirection::Row => cur.position.y + all[cs[j] as int].size.y == bottom,
                FlexDirection::Col => cur.position.x + all[cs[j] as int].size.x == right,
            }
            &&& p.cross_alignment == Alignment::Center ==> match p.direction {
                FlexDirection::Row => -1 <= (cur.position.y - top) - (bottom - (cur.position.y + all[cs[j] as int].size.y)) <= 1,
                FlexDirection::Col => -1 <= (cur.position.x - left) - (right - (cur.position.x + all[cs[j] as int].size.x)) <= 1,
            }
        }),
{
    reveal(arrange_spec);
    reveal(arrange_fits);
    let cs = el.elements@;
    let n = cs.len() as int;
    let cms = child_sizes(all, cs);
    let ps = child_positions(el, m, all);
    let placed = place(all, cs, ps);
    lemma_place_distinct(all, cs, ps, 0);
    lemma_place_distinct(all, cs, ps, j);
    lemma_place_keeps_sizes(all, cs, ps);
    if p.spacing is Stretch {
        lemma_grow_facts(placed, cs, p.direction, flex_inc(p, el, m, all));
    }
    let (start, cstart, size, csize, content) = flex_frame(p, m, cms);
    let (coord0, inc) = flex_start(p, start, size, content, n);
    assert(cms.take(0) =~= Seq::<ElementMeasure>::empty());
    assert(flex_main(p, coord0, inc, cms, 0) == coord0);
    let ec = cross_size(p.direction, cms[j]);
    assert(cross_coord_fits(p.cross_alignment, cstart, csize, ec));
    lemma_cross_alignment(p.cross_alignment, cstart, csize, ec);
}

/// How a flex frame shares out the space its sub-elements and gaps leave unused in its inner box,
/// stated on the frame's own position and inner box. With `lead` the space before the first
/// sub-element and `step(j)` the space between the `j`-th sub-element's far edge and the next
/// one's near edge:
/// - spaced evenly, `lead` is the unused space's equal share among the `n + 1` spaces (rounded
///   down) and each step is the gap plus that share;
/// - spaced around, each step is the gap plus twice `lead`, and `lead` is the unused space's
///   share among `2 n` half-spaces;
/// - spaced between, `lead` is zero and each step is the gap plus the unused space's share among
///   the `n - 1` spaces between sub-elements.
pub proof fn lemma_flex_shares_unused_space(el: Element, m: ElementMeasure, all: Seq<ElementMeasure>, p: Flex, j: int)
    requires
        el.layout == (Layout::Flex { properties: p }),
        arrange_fits(el, m, all),
        forall|a: int, b: int| 0 <= a < b < el.elements@.len() ==> #[trigger] el.elements@[a] != #[trigger] el.elements@[b],
        1 <= el.elements@.len() <= usize::MAX,
        (el.elements@.len() - 1) * p.gap <= i32::MAX,
        0 <= j < el.elements@.len(),
    ensures
        ({
            let r = arrange_spec(el, m, all);
            let cs = el.elements@;
            let n = cs.len() as int;
            let cms = child_sizes(all, cs);
            let (near, inner, content) = match p.direction {
                FlexDirection::Row => (m.position.x + m.inner_box.x, m.inner_box.w as int, sum_w(cms)),
                FlexDirection::Col => (m.position.y + m.inner_box.y, m.inner_box.h as int, sum_h(cms)),
            };
            let unused = inner - (content + (n - 1) * p.gap);
            let lead = main_pos(p.direction, r[cs[0] as int]) - near;
            let step = main_pos(p.direction, r[cs[j + 1] as int])
                - (main_pos(p.direction, r[cs[j] as int]) + main_size(p.direction, all[cs[j] as int]));
            &&& p.spacing == Spacing::Even ==> {
                &&& (unused >= 0 ==> 0 <= unused - (n + 1) * lead < n + 1)
                &&& (j + 1 < n ==> step == p.gap + lead)
            }
            &&& p.spacing == Spacing::Around ==> {
                &&& (unused >= 0 ==> 0 <= unused - 2 * n * lead < 2 * n)
                &&& (j + 1 < n ==> step == p.gap + 2 * lead)
            }
            &&& p.spacing == Spacing::Between ==> {
                &&& lead == 0
                &&& (j + 1 < n && unused >= 0 ==> 0 <= unused - (n - 1) * (step - p.gap) < n - 1)
            }
        }),
{
    reveal(arrange_spec);
    reveal(arrange_fits);
    let cs = el.elements@;
    let n = cs.len() as int;
    let cms = child_sizes(all, cs);
    lemma_flex_even_steps(el, m, all, p, j);
    let (start, cstart, size, csize, content) = flex_frame(p, m, cms);
    let (coord0, inc) = flex_start(p, start, size, content, n);
    let tg = total_gap(p.gap, n as usize) as int;
    let prod = (n - 1) * p.gap;
    assert(0 <= prod <= i32::MAX) by (nonlinear_arith)
        requires
            prod == (n - 1) * p.gap,
            prod <= i32::MAX,
            n >= 1,
            p.gap >= 0,
    ;
    assert(tg == prod);
    if n >= 2 {
        assert(p.gap <= i32::MAX) by (nonlinear_arith)
            requires
                (n - 1) * p.gap <= i32::MAX,
                n >= 2,
                p.gap >= 0,
        ;
    }
    let g = p.gap as i32;
    if n >= 2 {
        assert(g == p.gap);
    }
    let unused = size - (tg + content);
    match p.spacing {
        Spacing::Even => {
            let d = n + 1;
            if unused >= 0 {
                assert(inc == unused / d);
                assert(0 <= unused - d * (unused / d) < d) by (nonlinear_arith)
                    requires
                        unused >= 0,
                        d >= 1,
                ;
            }
        },
        Spacing::Around => {
            let d = n * 2;
            let h = div_trunc(unused, d);
            if unused >= 0 {
                assert(h == unused / d);
                assert(0 <= unused - d * (unused / d) < d) by (nonlinear_arith)
                    requires
                        unused >= 0,
                        d >= 1,
                ;
                assert(2 * n * h == d * h) by (nonlinear_arith)
                    requires
                        d == n * 2,
                ;
            }
        },
        Spacing::Between => {
            if j + 1 < n && unused >= 0 {
                let d = n - 1;
                assert(inc == unused / d);
                assert(0 <= unused - d * (unused / d) < d) by (nonlinear_arith)
                    requires
                        unused >= 0,
                        d >= 1,
                ;
            }
        },
        _ => {},
    }
}

/// Across the main axis, a sub-element aligned at the start sits at the start of the inner box,
/// one aligned at the end ends at its end, and one centered leaves space before and after it
/// that differs by at most one.
pub proof fn lemma_cross_alignment(a: Alignment, cross_start: int, cross_size: int, el_cross: int)
    ensures
        a == Alignment::Start ==> cross_coord(a, cross_start, cross_size, el_cross) == cross_start,
        a == Alignment::End ==> cross_coord(a, cross_start, cross_size, el_cross) + el_cross == cross_start + cross_size,
        a == Alignment::Center ==> {
            let c = cross_coord(a, cross_start, cross_size, el_cross);
            let before = c - cross_start;
            let after = cross_start + cross_size - (c + el_cross);
            -1 <= before - after <= 1
        },
{
}

proof fn lemma_place_step(all: Seq<ElementMeasure>, cs: Seq<usize>, ps: Seq<Vec2i>, j: int)
    requires
        cs.len() == ps.len(),
        0 <= j < cs.len(),
    ensures
        place(all, cs.take(j + 1), ps.take(j + 1)) == place(all, cs.take(j), ps.take(j)).update(
            cs[j] as int,
            with_position(place(all, cs.take(j), ps.take(j))[cs[j] as int], ps[j]),
        ),
{
    assert(cs.take(j + 1).drop_last() =~= cs.take(j));
    assert(ps.take(j + 1).drop_last() =~= ps.take(j));
}

proof fn lemma_sums_step(ms: Seq<ElementMeasure>, j: int)
    requires
        0 <= j < ms.len(),
    ensures
        sum_w(ms.take(j + 1)) == sum_w(ms.take(j)) + ms[j].size.x,
        sum_h(ms.take(j + 1)) == sum_h(ms.take(j)) + ms[j].size.y,
{
    assert(ms.take(j + 1).drop_last() =~= ms.take(j));
}

/// `flex_start` on `i32` values, with `total_gap` the layout's total gap.
fn flex_start_exec(p: &Flex, start: i32, size: i32, content: i32, total_gap: i32, n: usize) -> (r: (i32, i32))
    requires
        flex_start_fits(*p, start as int, size as int, content as int, n as int),
        total_gap == crate::layout::total_gap(p.gap, n),
        n >= 1,
    ensures
        r.0 == flex_start(*p, start as int, size as int, content as int, n as int).0,
        r.1 == flex_start(*p, start as int, size as int, content as int, n as int).1,
{
    let unused_size = size - (total_gap + content);
    match p.spacing {
        Spacing::Around => {
            let space = i32_div(unused_size, n as i32 * 2);
            (start + space, 2 * space)
        },
        Spacing::Between => {
            let space = i32_div(unused_size, n as i32 - 1);
            (start, space)
        },
        Spacing::Even => {
            let space = i32_div(unused_size, n as i32 + 1);
            (start + space, space)
        },
        Spacing::Stretch => {
            let space = i32_div(unused_size, n as i32);
            (start, space)
        },
        Spacing::NoSpacing => {
            (match p.axis_alignment {
                Alignment::Start => start,
                Alignment::Center => start + i32_div(size - total_gap - content, 2),
                Alignment::End => start + size - total_gap - content,
            }, 0)
        },
    }
}

/// `cross_coord` on `i32` values.
fn cross_coord_exec(a: Alignment, cross_start: i32, cross_size: i32, el_cross: i32) -> (r: i32)
    requires
        cross_coord_fits(a, cross_start as int, cross_size as int, el_cross as int),
    ensures
        r == cross_coord(a, cross_start as int, cross_size as int, el_cross as int),
{
    match a {
        Alignment::Start => cross_start,
        Alignment::Center => cross_start + i32_div(cross_size - el_cross, 2),
        Alignment::End => cross_start + cross_size - el_cross,
    }
}

/// Whether `flex_start` computes without overflow on these values; see `flex_start_fits`.
fn can_flex_start(p: &Flex, start: i32, size: i32, content: i32, tg: i32, n: usize) -> (r: bool)
    requires
        tg == crate::layout::total_gap(p.gap, n),
        n >= 1,
    ensures
        r == flex_start_fits(*p, start as int, size as int, content as int, n as int),
{
    let tc: i128 = tg as i128 + content as i128;
    let unused: i128 = size as i128 - tc;
    if !(fits_i32_exec(tc) && fits_i32_exec(unused)) {
        return false;
    }
    let nn: i128 = n as i128;
    match p.spacing {
        Spacing::Around => {
            if !(fits_i32_exec(nn) && fits_i32_exec(nn * 2)) {
                return false;
            }
            let space = i128_div(unused, nn * 2);
            fits_i32_exec(start as i128 + space) && fits_i32_exec(2 * space)
        },
        Spacing::Between => fits_i32_exec(nn) && n >= 2,
        Spacing::Even => {
            if !(fits_i32_exec(nn) && fits_i32_exec(nn + 1)) {
                return false;
            }
            let space = i128_div(unused, nn + 1);
            fits_i32_exec(start as i128 + space)
        },
        Spacing::Stretch => fits_i32_exec(nn),
        Spacing::NoSpacing => match p.axis_alignment {
            Alignment::Start => true,
            Alignment::Center => {
                let a: i128 = size as i128 - tg as i128;
                if !fits_i32_exec(a) {
                    return false;
                }
                let b: i128 = a - content as i128;
                fits_i32_exec(b) && fits_i32_exec(start as i128 + i128_div(b, 2))
            },
            Alignment::End => {
                let a: i128 = start as i128 + size as i128;
                fits_i32_exec(a) && fits_i32_exec(a - tg as i128) && fits_i32_exec(a - tg as i128 - content as i128)
            },
        },
    }
}

/// Whether `cross_coord` computes without overflow on these values; see `cross_coord_fits`.
fn can_cross_coord(a: Alignment, cross_start: i32, cross_size: i32, el_cross: i32) -> (r: bool)
    ensures
        r == cross_coord_fits(a, cross_start as int, cross_size as int, el_cross as int),
{
    match a {
        Alignment::Start => true,
        Alignment::Center => {
            let d: i128 = cross_size as i128 - el_cross as i128;
            fits_i32_exec(d) && fits_i32_exec(cross_start as i128 + i128_div(d, 2))
        },
        Alignment::End => {
            let e: i128 = cross_start as i128 + cross_size as i128;
            fits_i32_exec(e) && fits_i32_exec(e - el_cross as i128)
        },
    }
}

/// Whether growing the sub-elements of the flex frame `element` by `inc`, one after the other,
/// stays within `i32`; see `grow_fits`.
fn can_stretch(element: &Element, measure: &ElementMeasure, all_measures: &Vec<ElementMeasure>, properties: &Flex, inc: i32) -> (r: bool)
    requires
        forall|a: int| 0 <= a < element.elements@.len() ==> #[trigger] element.elements@[a] < all_measures@.len(),
    ensures
        r == grow_fits(
            place(all_measures@, element.elements@, child_positions(*element, *measure, all_measures@)),
            element.elements@,
            properties.direction,
            inc as int,
        ),
{
    let ghost all = all_measures@;
    let ghost cs = element.elements@;
    let ghost dir = properties.direction;
    let ghost placed = place(all, cs, child_positions(*element, *measure, all));
    proof {
        lemma_place_keeps_sizes(all, cs, child_positions(*element, *measure, all));
    }
    let mut sim: Vec<ElementMeasure> = Vec::new();
    let mut k: usize = 0;
    while k < all_measures.len()
        invariant
            all == all_measures@,
            0 <= k <= all.len(),
            sim@ == all.take(k as int),
        decreases all.len() - k,
    {
        sim.push(all_measures[k]);
        proof {
            assert(all.take(k + 1) =~= all.take(k as int).push(all[k as int]));
        }
        k += 1;
    }
    proof {
        lemma_take_full(all);
    }
    let n = element.elements.len();
    let mut j: usize = 0;
    proof {
        assert(cs.take(0) =~= Seq::<usize>::empty());
    }
    while j < n
        invariant
            n == cs.len(),
            cs == element.elements@,
            all == all_measures@,
            dir == properties.direction,
            forall|a: int| 0 <= a < cs.len() ==> #[trigger] cs[a] < all.len(),
            placed == place(all, cs, child_positions(*element, *measure, all)),
            placed.len() == all.len(),
            forall|i: int| 0 <= i < all.len() ==> (#[trigger] placed[i]).size == all[i].size && placed[i].inner_box == all[i].inner_box,
            0 <= j <= n,
            sim@ == grow(all, cs.take(j as int), dir, inc as int),
            forall|a: int| 0 <= a < j ==> {
                let cur = #[trigger] grow(placed, cs.take(a), dir, inc as int)[cs[a] as int];
                fits_i32(main_size(dir, cur) + inc) && fits_i32(inner_main_size(dir, cur) + inc)
            },
        decreases n - j,
    {
        let c = element.elements[j];
        let ghost front = cs.take(j as int);
        proof {
            assert forall|a: int| 0 <= a < front.len() implies #[trigger] front[a] < all.len() by {
                assert(front[a] == cs[a]);
            }
            lemma_grow_same_sizes(placed, all, front, dir, inc as int);
            assert(cs.take(j + 1).drop_last() =~= front);
            assert(cs.take(j + 1).last() == c);
        }
        let mut cur = sim[c];
        let (main, inner) = match properties.direction {
            FlexDirection::Row => (cur.size.x, cur.inner_box.w),
            FlexDirection::Col => (cur.size.y, cur.inner_box.h),
        };
        proof {
            let cur_p = grow(placed, front, dir, inc as int)[c as int];
            assert(cur_p.size == cur.size && cur_p.inner_box == cur.inner_box);
            assert(main == main_size(dir, cur_p));
            assert(inner == inner_main_size(dir, cur_p));
        }
        if !(fits_i32_exec(main as i128 + inc as i128) && fits_i32_exec(inner as i128 + inc as i128)) {
            proof {
                assert(cs[j as int] == c);
            }
            return false;
        }
        match properties.direction {
            FlexDirection::Row => {
                cur.size.x = cur.size.x + inc;
                cur.inner_box.w = cur.inner_box.w + inc;
            },
            FlexDirection::Col => {
                cur.size.y = cur.size.y + inc;
                cur.inner_box.h = cur.inner_box.h + inc;
            },
        }
        sim.set(c, cur);
        proof {
            assert(sim@ =~= grow(all, cs.take(j + 1), dir, inc as int));
        }
        j += 1;
    }
    proof {
        lemma_take_full(cs);
    }
    true
}

/// Growing two lists of measures that agree on every size and inner box keeps them agreeing.
proof fn lemma_grow_same_sizes(a: Seq<ElementMeasure>, b: Seq<ElementMeasure>, cs: Seq<usize>, dir: FlexDirection, d: int)
    requires
        a.len() == b.len(),
        forall|i: int| 0 <= i < a.len() ==> (#[trigger] a[i]).size == b[i].size && a[i].inner_box == b[i].inner_box,
        forall|j: int| 0 <= j < cs.len() ==> #[trigger] cs[j] < a.len(),
    ensures
        grow(a, cs, dir, d).len() == a.len(),
        grow(b, cs, dir, d).len() == a.len(),
        forall|i: int|
            0 <= i < a.len() ==> (#[trigger] grow(a, cs, dir, d)[i]).size == grow(b, cs, dir, d)[i].size
                && grow(a, cs, dir, d)[i].inner_box == grow(b, cs, dir, d)[i].inner_box,
    decreases cs.len(),
{
    if cs.len() > 0 {
        let front = cs.drop_last();
        assert forall|j: int| 0 <= j < front.len() implies #[trigger] front[j] < a.len() by {
            assert(front[j] == cs[j]);
        }
        lemma_grow_same_sizes(a, b, front, dir, d);
        assert(cs.last() == cs[cs.len() - 1]);
    }
}

impl Element {
    /// Whether the sub-elements of `element`, whose own measure is `measure`, can be arranged;
    /// see `arrange_fits`.
    #[verifier::spinoff_prover]
    #[verifier::rlimit(40)]
    pub fn can_arrange_element_content(element: &Element, measure: &ElementMeasure, all_measures: &Vec<ElementMeasure>) -> (r: bool)
        ensures
            r == arrange_fits(*element, *measure, all_measures@),
    {
        reveal(arrange_fits);
        let ghost all = all_measures@;
        let ghost cs = element.elements@;
        let n = element.elements.len();

        // The sub-elements are measures of the set; collect their sizes
        let mut sizes: Vec<ElementMeasure> = Vec::new();
        let mut j: usize = 0;
        while j < n
            invariant
                n == cs.len(),
                cs == element.elements@,
                all == all_measures@,
                0 <= j <= n,
                forall|a: int| 0 <= a < j ==> #[trigger] cs[a] < all.len(),
                sizes@ == child_sizes(all, cs.take(j as int)),
            decreases n - j,
        {
            let c = element.elements[j];
            if c >= all_measures.len() {
                proof {
                    reveal(arrange_fits);
                    assert(!(cs[j as int] < all.len()));
                }
                return false;
            }
            let m = all_measures[c];
            sizes.push(ElementMeasure { position: Vec2i { x: 0, y: 0 }, size: m.size, inner_box: m.inner_box });
            proof {
                assert(cs.take(j + 1) =~= cs.take(j as int).push(c));
                assert(sizes@ =~= child_sizes(all, cs.take(j + 1)));
            }
            j += 1;
        }
        proof {
            lemma_take_full(cs);
        }
        let ghost cms = child_sizes(all, cs);
        assert(cms.len() == n);
        if n == 0 {
            return true;
        }
        let (content_w, content_h) = match (width_sum(sizes.as_slice()), height_sum(sizes.as_slice())) {
            (Some(w), Some(h)) => (w, h),
            _ => {
                return false;
            },
        };
        let ix: i128 = measure.position.x as i128 + measure.inner_box.x as i128;
        let iy: i128 = measure.position.y as i128 + measure.inner_box.y as i128;
        if !(fits_i32_exec(ix) && fits_i32_exec(iy)) {
            return false;
        }
        match &element.layout {
            Layout::Sequential | Layout::Scroll => {
                // Every sub-element's top fits, and so does the bottom of the last
                let mut acc: i128 = 0;
                let mut j: usize = 0;
                proof {
                    assert(cms.take(0) =~= Seq::<ElementMeasure>::empty());
                }
                while j < n
                    invariant
                        all == all_measures@,
                        cs == element.elements@,
                        cms == child_sizes(all, cs),
                        n == cs.len(),
                        n >= 1,
                        cms.len() == n,
                        sizes@ == cms,
                        heights_fit(cms),
                        iy == inner_start(*measure).1,
                        fits_i32(iy as int),
                        element.layout is Sequential || element.layout is Scroll,
                        0 <= j <= n,
                        acc == sum_h(cms.take(j as int)),
                        forall|a: int| 0 <= a < j ==> #[trigger] fits_i32(inner_start(*measure).1 + sum_h(cms.take(a))),
                    decreases n - j,
                {
                    proof {
                        assert(fits_i32(sum_h(cms.take(j as int))));
                    }
                    if !fits_i32_exec(iy + acc) {
                        proof {
                            reveal(arrange_fits);
                            assert(!fits_i32(inner_start(*measure).1 + sum_h(cms.take(j as int))));
                        }
                        return false;
                    }
                    proof {
                        lemma_sums_step(cms, j as int);
                        assert(fits_i32(sum_h(cms.take(j + 1))));
                    }
                    acc = acc + sizes[j].size.y as i128;
                    j += 1;
                }
                proof {
                    assert(fits_i32(sum_h(cms.take(n as int))));
                }
                if !fits_i32_exec(iy + acc) {
                    proof {
                        reveal(arrange_fits);
                        assert(!fits_i32(inner_start(*measure).1 + sum_h(cms.take(n as int))));
                    }
                    return false;
                }
                proof {
                    reveal(arrange_fits);
                    assert forall|a: int| 0 <= a <= cs.len() implies #[trigger] fits_i32(inner_start(*measure).1 + sum_h(cms.take(a))) by {
                        if a < n {
                            assert(a < j);
                        }
                    }
                }
                true
            },
            Layout::Flex { properties } => {
                let g = match (n - 1).checked_mul(properties.gap) {
                    Some(g) => g,
                    None => {
                        return false;
                    },
                };
                let tg = g as i32;
                let ix = ix as i32;
                let iy = iy as i32;
                let (start, cstart, size, csize, content) = match properties.direction {
                    FlexDirection::Row => (ix, iy, measure.inner_box.w, measure.inner_box.h, content_w),
                    FlexDirection::Col => (iy, ix, measure.inner_box.h, measure.inner_box.w, content_h),
                };
                let ghost frame = flex_frame(*properties, *measure, cms);
                assert(frame == (start as int, cstart as int, size as int, csize as int, content as int));
                if !can_flex_start(properties, start, size, content, tg, n) {
                    return false;
                }
                let (coord0, inc) = flex_start_exec(properties, start, size, content, tg, n);
                let gap = properties.gap as i32;
                let step: i128 = gap as i128 + inc as i128;
                if !fits_i32_exec(step) {
                    return false;
                }
                let mut coord: i128 = coord0 as i128;
                let mut j: usize = 0;
                proof {
                    assert(cms.take(0) =~= Seq::<ElementMeasure>::empty());
                }
                while j < n
                    invariant
                        all == all_measures@,
                        cs == element.elements@,
                        cms == child_sizes(all, cs),
                        n == cs.len(),
                        cms.len() == n,
                        sizes@ == cms,
                        element.layout == (Layout::Flex { properties: *properties }),
                        frame == flex_frame(*properties, *measure, cms),
                        frame == (start as int, cstart as int, size as int, csize as int, content as int),
                        (coord0 as int, inc as int) == flex_start(*properties, start as int, size as int, content as int, n as int),
                        gap == properties.gap as i32,
                        step == gap + inc,
                        fits_i32(step as int),
                        0 <= j <= n,
                        coord == flex_main(*properties, coord0 as int, inc as int, cms, j as int),
                        fits_i32(coord as int),
                        forall|a: int| 0 <= a < j ==> {
                            &&& cross_coord_fits(properties.cross_alignment, cstart as int, csize as int, cross_size(properties.direction, #[trigger] cms[a]))
                            &&& fits_i32((gap + inc) + main_size(properties.direction, cms[a]))
                            &&& fits_i32(flex_main(*properties, coord0 as int, inc as int, cms, a + 1))
                        },
                    decreases n - j,
                {
                    let cm = sizes[j];
                    let (main, cross) = match properties.direction {
                        FlexDirection::Row => (cm.size.x, cm.size.y),
                        FlexDirection::Col => (cm.size.y, cm.size.x),
                    };
                    proof {
                        reveal(arrange_fits);
                        assert(cms[j as int] == cm);
                        assert(main == main_size(properties.direction, cms[j as int]));
                        assert(cross == cross_size(properties.direction, cms[j as int]));
                    }
                    if !can_cross_coord(properties.cross_alignment, cstart, csize, cross) {
                        return false;
                    }
                    if !fits_i32_exec(step + main as i128) {
                        return false;
                    }
                    let next: i128 = coord + step + main as i128;
                    proof {
                        lemma_sums_step(cms, j as int);
                        let jj = j as int;
                        let st = step as int;
                        assert((jj + 1) * st == jj * st + st) by (nonlinear_arith);
                        assert(next == flex_main(*properties, coord0 as int, inc as int, cms, j + 1));
                    }
                    if !fits_i32_exec(next) {
                        return false;
                    }
                    coord = next;
                    j += 1;
                }
                match properties.spacing {
                    Spacing::Stretch => can_stretch(element, measure, all_measures, properties, inc),
                    _ => true,
                }
            },
            Layout::Grid { .. } => true,
        }
    }

    // Position sub elements within the element
    /// Places the sub-elements of `element`, whose own measure is `measure`, inside its inner
    /// box; see `arrange_spec` and `child_positions`.
    pub fn arrange_element_content(element: &Element, measure: &ElementMeasure, all_measures: &mut Vec<ElementMeasure>)
        requires
            arrange_fits(*element, *measure, old(all_measures)@),
        ensures
            final(all_measures)@ == arrange_spec(*element, *measure, old(all_measures)@),
    {
        reveal(arrange_fits);
        reveal(arrange_spec);
        let ghost all0 = all_measures@;
        let ghost cs = element.elements@;
        let ghost cms = child_sizes(all0, cs);
        let ghost ps = child_positions(*element, *measure, all0);
        if element.elements.len() == 0 {
            proof {
                assert(cs =~= Seq::<usize>::empty());
            }
            return;
        }
        let n = element.elements.len();

        let mut content_width: i32 = 0;
        let mut content_height: i32 = 0;
        let mut j: usize = 0;
        while j < n
            invariant
                n == cs.len(),
                cs == element.elements@,
                all0 == all_measures@,
                cms == child_sizes(all0, cs),
                arrange_fits(*element, *measure, all0),
                0 <= j <= n,
                content_width == sum_w(cms.take(j as int)),
                content_height == sum_h(cms.take(j as int)),
            decreases n - j,
        {
            proof {
                reveal(arrange_fits);
                lemma_sums_step(cms, j as int);
                assert(fits_i32(sum_w(cms.take(j + 1))));
                assert(fits_i32(sum_h(cms.take(j + 1))));
            }
            let c = element.elements[j];
            content_width = content_width + all_measures[c].size.x;
            content_height = content_height + all_measures[c].size.y;
            j += 1;
        }
        proof {
            lemma_take_full(cms);
        }

        let inner_x = measure.position.x + measure.inner_box.x;
        let inner_y = measure.position.y + measure.inner_box.y;

        match &element.layout {
            Layout::Sequential | Layout::Scroll => {
                let x = measure.position.x + measure.inner_box.x;
                let mut y = measure.position.y + measure.inner_box.y;
                let mut j: usize = 0;
                while j < n
                    invariant
                        n == cs.len(),
                        cs == element.elements@,
                        cms == child_sizes(all0, cs),
                        ps == child_positions(*element, *measure, all0),
                        element.layout is Sequential || element.layout is Scroll,
                        arrange_fits(*element, *measure, all0),
                        x == inner_start(*measure).0,
                        0 <= j <= n,
                        y == inner_start(*measure).1 + sum_h(cms.take(j as int)),
                        all_measures@ == place(all0, cs.take(j as int), ps.take(j as int)),
                    decreases n - j,
                {
                    let sub_index = element.elements[j];
                    proof {
                        reveal(arrange_fits);
                        lemma_place_keeps_sizes(all0, cs.take(j as int), ps.take(j as int));
                        lemma_place_step(all0, cs, ps, j as int);
                        lemma_sums_step(cms, j as int);
                        assert(fits_i32(inner_start(*measure).1 + sum_h(cms.take(j + 1))));
                    }
                    let mut sub_measure = all_measures[sub_index];
                    sub_measure.position.x = x;
                    sub_measure.position.y = y;
                    y += sub_measure.size.y;
                    all_measures.set(sub_index, sub_measure);
                    j += 1;
                }
                proof {
                    lemma_take_full(cs);
                    lemma_take_full(ps);
                }
            },
            Layout::Flex { properties } => {
                let gap = properties.gap as i32;
                let total_gap = properties.calc_total_gap(n);

                let (inner_start, inner_cross_start, inner_size, inner_cross_size, content_size) = match properties.direction {
                    FlexDirection::Row => {
                        (inner_x, inner_y, measure.inner_box.w, measure.inner_box.h, content_width)
                    },
                    FlexDirection::Col => {
                        (inner_y, inner_x, measure.inner_box.h, measure.inner_box.w, content_height)
                    },
                };
                let ghost frame = flex_frame(*properties, *measure, cms);
                assert(frame == (inner_start as int, inner_cross_start as int, inner_size as int, inner_cross_size as int, content_size as int));

                let (mut coord, coord_inc) = flex_start_exec(properties, inner_start, inner_size, content_size, total_gap, n);
                let ghost coord0 = coord as int;
                let mut j: usize = 0;
                while j < n
                    invariant
                        n == cs.len(),
                        cs == element.elements@,
                        cms == child_sizes(all0, cs),
                        ps == child_positions(*element, *measure, all0),
                        element.layout == (Layout::Flex { properties: *properties }),
                        arrange_fits(*element, *measure, all0),
                        frame == flex_frame(*properties, *measure, cms),
                        frame == (inner_start as int, inner_cross_start as int, inner_size as int, inner_cross_size as int, content_size as int),
                        (coord0, coord_inc as int) == flex_start(*properties, inner_start as int, inner_size as int, content_size as int, n as int),
                        gap == properties.gap as i32,
                        0 <= j <= n,
                        coord == flex_main(*properties, coord0, coord_inc as int, cms, j as int),
                        all_measures@ == place(all0, cs.take(j as int), ps.take(j as int)),
                    decreases n - j,
                {
                    let sub_index = element.elements[j];
                    proof {
                        reveal(arrange_fits);
                        lemma_place_keeps_sizes(all0, cs.take(j as int), ps.take(j as int));
                        lemma_place_step(all0, cs, ps, j as int);
                        lemma_sums_step(cms, j as int);
                        assert(cms[j as int].size == all0[sub_index as int].size);
                        let jj = j as int;
                        let step = gap + coord_inc;
                        assert((jj + 1) * step == jj * step + step) by (nonlinear_arith);
                    }
                    let mut el = all_measures[sub_index];

                    let el_cross_size = match properties.direction {
                        FlexDirection::Row => el.size.y,
                        FlexDirection::Col => el.size.x,
                    };

                    let cross_coord = cross_coord_exec(properties.cross_alignment, inner_cross_start, inner_cross_size, el_cross_size);

                    match properties.direction {
                        FlexDirection::Row => {
                            el.position.x = coord;
                            el.position.y = cross_coord;
                            coord += gap + coord_inc + el.size.x;
                        },
                        FlexDirection::Col => {
                            el.position.x = cross_coord;
                            el.position.y = coord;
                            coord += gap + coord_inc + el.size.y;
                        },
                    }
                    all_measures.set(sub_index, el);
                    j += 1;
                }
                proof {
                    lemma_take_full(cs);
                    lemma_take_full(ps);
                    lemma_place_keeps_sizes(all0, cs, ps);
                }

                // Under the stretch spacing, each sub-element then grows by the extra space
                match properties.spacing {
                    Spacing::Stretch => {
                        let ghost placed = all_measures@;
                        let mut j: usize = 0;
                        while j < n
                            invariant
                                n == cs.len(),
                                cs == element.elements@,
                                ps == child_positions(*element, *measure, all0),
                                placed == place(all0, cs, ps),
                                placed.len() == all0.len(),
                                element.layout == (Layout::Flex { properties: *properties }),
                                properties.spacing is Stretch,
                                arrange_fits(*element, *measure, all0),
                                coord_inc as int == flex_inc(*properties, *element, *measure, all0),
                                0 <= j <= n,
                                all_measures@ == grow(placed, cs.take(j as int), properties.direction, coord_inc as int),
                            decreases n - j,
                        {
                            let sub_index = element.elements[j];
                            proof {
                                reveal(arrange_fits);
                                let front = cs.take(j as int);
                                assert forall|a: int| 0 <= a < front.len() implies #[trigger] front[a] < placed.len() by {
                                    assert(front[a] == cs[a]);
                                }
                                lemma_grow_facts(placed, front, properties.direction, coord_inc as int);
                                assert(cs.take(j + 1).drop_last() =~= front);
                                assert(cs.take(j + 1).last() == cs[j as int]);
                                assert(cs[j as int] < all0.len());
                            }
                            let mut el = all_measures[sub_index];
                            match properties.direction {
                                FlexDirection::Row => {
                                    el.size.x = el.size.x + coord_inc;
                                    el.inner_box.w = el.inner_box.w + coord_inc;
                                },
                                FlexDirection::Col => {
                                    el.size.y = el.size.y + coord_inc;
                                    el.inner_box.h = el.inner_box.h + coord_inc;
                                },
                            }
                            all_measures.set(sub_index, el);
                            j += 1;
                        }
                        proof {
                            lemma_take_full(cs);
                        }
                    },
                    _ => {},
                }
            },
            Layout::Grid { .. } => {},
        }
    }
}

} // verus!
