use vstd::prelude::*;

use crate::arith::{fits_i32, fits_i32_exec, fits_usize, fits_usize_exec, lemma_take_full, max_i32};
use crate::element::{Element, ElementMeasure};
use crate::layout::{total_gap, Flex, FlexDirection, Layout};
use crate::order::{is_render_order, lemma_children_listed_later, lemma_render_order_distinct, tree_wf};
use crate::render_box::RenderBox;
use crate::style::{Border, Padding, SidedSize, Style};
use crate::tag::Tag;
use crate::vec2::Vec2i;

verus! {

/// The sum of the widths in `ms`.
pub open spec fn sum_w(ms: Seq<ElementMeasure>) -> int
    decreases ms.len(),
{
    if ms.len() == 0 {
        0
    } else {
        sum_w(ms.drop_last()) + ms.last().size.x
    }
}

/// The sum of the heights in `ms`.
pub open spec fn sum_h(ms: Seq<ElementMeasure>) -> int
    decreases ms.len(),
{
    if ms.len() == 0 {
        0
    } else {
        sum_h(ms.drop_last()) + ms.last().size.y
    }
}

/// The largest width in `ms`, or 0 if that is larger.
pub open spec fn max_w(ms: Seq<ElementMeasure>) -> int
    decreases ms.len(),
{
    if ms.len() == 0 {
        0
    } else {
        max_i32(max_w(ms.drop_last()), ms.last().size.x as int)
    }
}

/// The largest height in `ms`, or 0 if that is larger.
pub open spec fn max_h(ms: Seq<ElementMeasure>) -> int
    decreases ms.len(),
{
    if ms.len() == 0 {
        0
    } else {
        max_i32(max_h(ms.drop_last()), ms.last().size.y as int)
    }
}

/// Every partial sum of the widths in `ms` fits in `i32`.
pub open spec fn widths_fit(ms: Seq<ElementMeasure>) -> bool {
    forall|k: int| 0 <= k <= ms.len() ==> #[trigger] fits_i32(sum_w(ms.take(k)))
}

/// Every partial sum of the heights in `ms` fits in `i32`.
pub open spec fn heights_fit(ms: Seq<ElementMeasure>) -> bool {
    forall|k: int| 0 <= k <= ms.len() ==> #[trigger] fits_i32(sum_h(ms.take(k)))
}

/// The border widths of a style: those of its border, or zero without one.
pub open spec fn border_width(style: Style) -> SidedSize {
    match style.border {
        Some(b) => b.width,
        None => SidedSize { t: 0, r: 0, b: 0, l: 0 },
    }
}

/// The padding of a style, or zero without one.
pub open spec fn padding_of(style: Style) -> SidedSize {
    match style.padding {
        Some(p) => p,
        None => SidedSize { t: 0, r: 0, b: 0, l: 0 },
    }
}

/// The horizontal space that border and padding take, before it is taken as an `i32`.
pub open spec fn frame_x(style: Style) -> int {
    border_width(style).l + border_width(style).r + padding_of(style).l + padding_of(style).r
}

/// The vertical space that border and padding take, before it is taken as an `i32`.
pub open spec fn frame_y(style: Style) -> int {
    border_width(style).t + border_width(style).b + padding_of(style).t + padding_of(style).b
}

/// The size of an element's contents, given the measures of its sub-elements and the size of
/// its text (for a label).
///
/// - A label is as large as its text.
/// - A scroll frame is as large as its maximum size, or its minimum size where no maximum is set.
/// - A sequential frame is as wide as its widest sub-element (and at least 0) and as tall as the
///   heights of its sub-elements together.
/// - A flex row is as wide as the widths of its sub-elements and the gaps together, and as tall
///   as its tallest sub-element (and at least 0); a flex column the other way round.
pub open spec fn content_size(el: Element, subs: Seq<ElementMeasure>, text_size: Vec2i) -> Vec2i {
    match el.tag {
        Tag::Label { .. } => text_size,
        _ => match el.layout {
            Layout::Scroll => Vec2i {
                x: match el.style.max_width { Some(w) => w, None => el.style.min_width },
                y: match el.style.max_height { Some(h) => h, None => el.style.min_height },
            },
            Layout::Sequential => Vec2i { x: max_w(subs) as i32, y: sum_h(subs) as i32 },
            Layout::Flex { properties } => {
                let gap = total_gap(properties.gap, subs.len() as usize);
                match properties.direction {
                    FlexDirection::Row => Vec2i { x: (sum_w(subs) + gap) as i32, y: max_h(subs) as i32 },
                    FlexDirection::Col => Vec2i { x: max_w(subs) as i32, y: (sum_h(subs) + gap) as i32 },
                }
            },
            Layout::Grid { .. } => Vec2i { x: 0, y: 0 },
        },
    }
}

/// Whether measuring the contents computes without overflow and without reaching an
/// unimplemented layout: a flex frame needs at least one sub-element, and a grid frame
/// cannot be measured.
pub open spec fn content_fits(el: Element, subs: Seq<ElementMeasure>) -> bool {
    match el.tag {
        Tag::Label { .. } => true,
        _ => match el.layout {
            Layout::Scroll => true,
            Layout::Sequential => heights_fit(subs),
            Layout::Flex { properties } => {
                &&& subs.len() >= 1
                &&& fits_usize((subs.len() - 1) * properties.gap)
                &&& match properties.direction {
                    FlexDirection::Row => widths_fit(subs)
                        && fits_i32(sum_w(subs) + total_gap(properties.gap, subs.len() as usize)),
                    FlexDirection::Col => heights_fit(subs)
                        && fits_i32(sum_h(subs) + total_gap(properties.gap, subs.len() as usize)),
                }
            },
            Layout::Grid { .. } => false,
        },
    }
}

/// The measure of an element: its position is zero; its size is its contents plus border and
/// padding, and at least its minimum size; its inner box starts after the left and top border
/// and padding and is the size less border and padding.
pub open spec fn measure_spec(el: Element, subs: Seq<ElementMeasure>, text_size: Vec2i) -> ElementMeasure {
    let content = content_size(el, subs, text_size);
    let fx = frame_x(el.style) as i32;
    let fy = frame_y(el.style) as i32;
    let bw = border_width(el.style);
    let pd = padding_of(el.style);
    let size = Vec2i {
        x: max_i32(el.style.min_width as int, content.x + fx) as i32,
        y: max_i32(el.style.min_height as int, content.y + fy) as i32,
    };
    ElementMeasure {
        position: Vec2i { x: 0, y: 0 },
        size: size,
        inner_box: RenderBox {
            x: (bw.l + pd.l) as i32,
            y: (bw.t + pd.t) as i32,
            w: (size.x - fx) as i32,
            h: (size.y - fy) as i32,
        },
    }
}

/// Whether measuring an element computes without overflow or an unimplemented layout.
pub open spec fn measure_fits(el: Element, subs: Seq<ElementMeasure>, text_size: Vec2i) -> bool {
    let content = content_size(el, subs, text_size);
    let bw = border_width(el.style);
    let pd = padding_of(el.style);
    let fx = frame_x(el.style) as i32;
    let fy = frame_y(el.style) as i32;
    let sx = max_i32(el.style.min_width as int, content.x + fx);
    let sy = max_i32(el.style.min_height as int, content.y + fy);
    &&& content_fits(el, subs)
    &&& fits_usize(bw.l + bw.r)
    &&& fits_usize(bw.l + bw.r + pd.l)
    &&& fits_usize(frame_x(el.style))
    &&& fits_usize(bw.t + bw.b)
    &&& fits_usize(bw.t + bw.b + pd.t)
    &&& fits_usize(frame_y(el.style))
    &&& fits_usize(bw.l + pd.l)
    &&& fits_usize(bw.t + pd.t)
    &&& fits_i32(content.x + fx)
    &&& fits_i32(content.y + fy)
    &&& fits_i32(sx - fx)
    &&& fits_i32(sy - fy)
}

/// The measures that `ms` holds for the sub-elements of `el`, in order.
pub open spec fn sub_measures(el: Element, ms: Seq<ElementMeasure>) -> Seq<ElementMeasure> {
    el.elements@.map_values(|c: usize| ms[c as int])
}

/// The measures after measuring, from the last to the one at position `k`, the elements listed
/// in `ro`: each from the measures its sub-elements have at that point and its text size in
/// `ts`. Every other measure is zero.
pub open spec fn measured_from(els: Seq<Element>, ts: Seq<Vec2i>, ro: Seq<usize>, k: int) -> Seq<ElementMeasure>
    decreases ro.len() - k,
{
    if k < 0 || k >= ro.len() {
        Seq::new(els.len(), |i: int| ElementMeasure::zero_spec())
    } else {
        let prev = measured_from(els, ts, ro, k + 1);
        let i = ro[k] as int;
        prev.update(i, measure_spec(els[i], sub_measures(els[i], prev), ts[i]))
    }
}

/// Measuring keeps the number of measures.
pub proof fn lemma_measured_len(els: Seq<Element>, ts: Seq<Vec2i>, ro: Seq<usize>, k: int)
    requires
        is_render_order(els, ro),
    ensures
        measured_from(els, ts, ro, k).len() == els.len(),
    decreases ro.len() - k,
{
    if 0 <= k < ro.len() {
        lemma_measured_len(els, ts, ro, k + 1);
    }
}

/// Once the element at position `p` of a render order is measured, measuring the elements
/// before it leaves its measure alone.
pub proof fn lemma_measured_stable(els: Seq<Element>, ts: Seq<Vec2i>, ro: Seq<usize>, k: int, p: int)
    requires
        tree_wf(els),
        is_render_order(els, ro),
        0 <= k <= p < ro.len(),
    ensures
        measured_from(els, ts, ro, k)[ro[p] as int] == measured_from(els, ts, ro, p)[ro[p] as int],
    decreases p - k,
{
    if k < p {
        lemma_measured_stable(els, ts, ro, k + 1, p);
        lemma_render_order_distinct(els, ro);
        assert(ro[k] != ro[p]);
        lemma_measured_len(els, ts, ro, k + 1);
    }
}

/// An element that the render order does not list keeps a zero measure.
proof fn lemma_measured_unlisted(els: Seq<Element>, ts: Seq<Vec2i>, ro: Seq<usize>, k: int, x: int)
    requires
        is_render_order(els, ro),
        0 <= x < els.len(),
        !ro.contains(x as usize),
    ensures
        measured_from(els, ts, ro, k)[x] == ElementMeasure::zero_spec(),
    decreases ro.len() - k,
{
    if 0 <= k < ro.len() {
        lemma_measured_unlisted(els, ts, ro, k + 1, x);
        lemma_measured_len(els, ts, ro, k + 1);
        assert(ro[k] != x as usize);
    }
}

/// The sub-elements of a listed element have, once it is measured, the measures they end with.
pub proof fn lemma_sub_measures_final(els: Seq<Element>, ts: Seq<Vec2i>, ro: Seq<usize>, p: int)
    requires
        tree_wf(els),
        is_render_order(els, ro),
        0 <= p < ro.len(),
    ensures
        sub_measures(els[ro[p] as int], measured_from(els, ts, ro, p + 1))
            == sub_measures(els[ro[p] as int], measured_from(els, ts, ro, 0)),
{
    let el = els[ro[p] as int];
    assert forall|j: int| 0 <= j < el.elements@.len() implies
        #[trigger] sub_measures(el, measured_from(els, ts, ro, p + 1))[j]
            == sub_measures(el, measured_from(els, ts, ro, 0))[j] by {
        let q = lemma_children_listed_later(els, ro, p, j);
        lemma_measured_stable(els, ts, ro, p + 1, q);
        lemma_measured_stable(els, ts, ro, 0, q);
    }
    assert(sub_measures(el, measured_from(els, ts, ro, p + 1)) =~= sub_measures(el, measured_from(els, ts, ro, 0)));
}

/// Measuring in reverse render order measures each element from the final measures of its
/// sub-elements: the measure of each listed element is `measure_spec` of its sub-elements'
/// measures and its text size, and every element the render order does not list stays zero.
pub proof fn lemma_measured_fixpoint(els: Seq<Element>, ts: Seq<Vec2i>, ro: Seq<usize>, x: int)
    requires
        tree_wf(els),
        is_render_order(els, ro),
        0 <= x < els.len(),
    ensures
        ({
            let ms = measured_from(els, ts, ro, 0);
            &&& ms.len() == els.len()
            &&& ms[x] == (if ro.contains(x as usize) {
                measure_spec(els[x], sub_measures(els[x], ms), ts[x])
            } else {
                ElementMeasure::zero_spec()
            })
        }),
{
    lemma_measured_len(els, ts, ro, 0);
    if ro.contains(x as usize) {
        let p = choose|p: int| 0 <= p < ro.len() && ro[p] == x as usize;
        lemma_measured_stable(els, ts, ro, 0, p);
        lemma_sub_measures_final(els, ts, ro, p);
        lemma_measured_len(els, ts, ro, p + 1);
    } else {
        lemma_measured_unlisted(els, ts, ro, 0, x);
    }
}

/// The box model: an element is exactly the larger of its minimum size and its contents plus
/// its border and padding (its maximum size plays no part), and its inner box starts after the
/// left and top border and padding and ends before the right and bottom ones.
pub proof fn lemma_measure_box_model(el: Element, subs: Seq<ElementMeasure>, text_size: Vec2i)
    requires
        measure_fits(el, subs, text_size),
        frame_x(el.style) <= i32::MAX,
        frame_y(el.style) <= i32::MAX,
    ensures
        ({
            let r = measure_spec(el, subs, text_size);
            let content = content_size(el, subs, text_size);
            let bw = border_width(el.style);
            let pd = padding_of(el.style);
            &&& r.position == (Vec2i { x: 0, y: 0 })
            &&& r.size.x >= el.style.min_width
            &&& r.size.y >= el.style.min_height
            &&& r.size.x >= content.x + frame_x(el.style)
            &&& r.size.y >= content.y + frame_y(el.style)
            &&& (r.size.x == el.style.min_width || r.size.x == content.x + frame_x(el.style))
            &&& (r.size.y == el.style.min_height || r.size.y == content.y + frame_y(el.style))
            &&& r.inner_box.w == r.size.x - frame_x(el.style)
            &&& r.inner_box.h == r.size.y - frame_y(el.style)
            &&& r.inner_box.x == bw.l + pd.l
            &&& r.inner_box.y == bw.t + pd.t
            &&& r.inner_box.x + r.inner_box.w + bw.r + pd.r == r.size.x
            &&& r.inner_box.y + r.inner_box.h + bw.b + pd.b == r.size.y
        }),
{
}

proof fn lemma_max_w(ms: Seq<ElementMeasure>)
    ensures
        max_w(ms) >= 0,
        forall|j: int| 0 <= j < ms.len() ==> max_w(ms) >= #[trigger] ms[j].size.x,
        max_w(ms) == 0 || exists|j: int| 0 <= j < ms.len() && max_w(ms) == #[trigger] ms[j].size.x,
    decreases ms.len(),
{
    if ms.len() > 0 {
        lemma_max_w(ms.drop_last());
        assert forall|j: int| 0 <= j < ms.len() implies max_w(ms) >= #[trigger] ms[j].size.x by {
            if j < ms.len() - 1 {
                assert(ms.drop_last()[j] == ms[j]);
            }
        }
        if max_w(ms) != 0 && max_w(ms) != ms.last().size.x {
            let j = choose|j: int| 0 <= j < ms.drop_last().len() && max_w(ms.drop_last()) == #[trigger] ms.drop_last()[j].size.x;
            assert(ms[j] == ms.drop_last()[j]);
        }
    }
}

proof fn lemma_max_h(ms: Seq<ElementMeasure>)
    ensures
        max_h(ms) >= 0,
        forall|j: int| 0 <= j < ms.len() ==> max_h(ms) >= #[trigger] ms[j].size.y,
        max_h(ms) == 0 || exists|j: int| 0 <= j < ms.len() && max_h(ms) == #[trigger] ms[j].size.y,
    decreases ms.len(),
{
    if ms.len() > 0 {
        lemma_max_h(ms.drop_last());
        assert forall|j: int| 0 <= j < ms.len() implies max_h(ms) >= #[trigger] ms[j].size.y by {
            if j < ms.len() - 1 {
                assert(ms.drop_last()[j] == ms[j]);
            }
        }
        if max_h(ms) != 0 && max_h(ms) != ms.last().size.y {
            let j = choose|j: int| 0 <= j < ms.drop_last().len() && max_h(ms.drop_last()) == #[trigger] ms.drop_last()[j].size.y;
            assert(ms[j] == ms.drop_last()[j]);
        }
    }
}

/// A flex row's contents are as wide as its sub-elements and the gaps between them together,
/// and as tall as its tallest sub-element (at least 0); a flex column's are as tall as its
/// sub-elements and the gaps together, and as wide as its widest sub-element (at least 0).
pub proof fn lemma_flex_content(el: Element, subs: Seq<ElementMeasure>, text_size: Vec2i, p: Flex)
    requires
        !(el.tag is Label),
        el.layout == (Layout::Flex { properties: p }),
        content_fits(el, subs),
    ensures
        ({
            let c = content_size(el, subs, text_size);
            let n = subs.len();
            match p.direction {
                FlexDirection::Row => {
                    &&& c.x == sum_w(subs) + total_gap(p.gap, n as usize)
                    &&& c.y >= 0
                    &&& forall|j: int| 0 <= j < n ==> c.y >= #[trigger] subs[j].size.y
                    &&& (c.y == 0 || exists|j: int| 0 <= j < n && c.y == #[trigger] subs[j].size.y)
                },
                FlexDirection::Col => {
                    &&& c.y == sum_h(subs) + total_gap(p.gap, n as usize)
                    &&& c.x >= 0
                    &&& forall|j: int| 0 <= j < n ==> c.x >= #[trigger] subs[j].size.x
                    &&& (c.x == 0 || exists|j: int| 0 <= j < n && c.x == #[trigger] subs[j].size.x)
                },
            }
        }),
{
    lemma_max_w(subs);
    lemma_max_h(subs);
    lemma_take_full(subs);
    if max_w(subs) != 0 {
        let j = choose|j: int| 0 <= j < subs.len() && max_w(subs) == #[trigger] subs[j].size.x;
        assert(fits_i32(max_w(subs)));
    }
    if max_h(subs) != 0 {
        let j = choose|j: int| 0 <= j < subs.len() && max_h(subs) == #[trigger] subs[j].size.y;
        assert(fits_i32(max_h(subs)));
    }
    match p.direction {
        FlexDirection::Row => {
            assert(fits_i32(sum_w(subs.take(subs.len() as int))));
        },
        FlexDirection::Col => {
            assert(fits_i32(sum_h(subs.take(subs.len() as int))));
        },
    }
}

/// A scroll frame's contents are as wide as its maximum width, or its minimum width where no
/// maximum width is set, and as tall as its maximum height, or its minimum height where no
/// maximum height is set: each axis by its own settings.
pub proof fn lemma_scroll_content(el: Element, subs: Seq<ElementMeasure>, text_size: Vec2i)
    requires
        !(el.tag is Label),
        el.layout is Scroll,
    ensures
        ({
            let c = content_size(el, subs, text_size);
            &&& el.style.max_width is Some ==> c.x == el.style.max_width->0
            &&& el.style.max_width is None ==> c.x == el.style.min_width
            &&& el.style.max_height is Some ==> c.y == el.style.max_height->0
            &&& el.style.max_height is None ==> c.y == el.style.min_height
        }),
{
}

/// A label's contents are exactly the size of its text, whatever its layout and sub-elements.
pub proof fn lemma_label_content(el: Element, subs: Seq<ElementMeasure>, text_size: Vec2i)
    requires
        el.tag is Label,
    ensures
        content_size(el, subs, text_size) == text_size,
{
}

/// A sequential frame's contents are as wide as its widest sub-element (at least 0) and as tall
/// as its sub-elements together.
pub proof fn lemma_sequential_content(el: Element, subs: Seq<ElementMeasure>, text_size: Vec2i)
    requires
        !(el.tag is Label),
        el.layout is Sequential,
        content_fits(el, subs),
    ensures
        ({
            let c = content_size(el, subs, text_size);
            &&& c.x >= 0
            &&& forall|j: int| 0 <= j < subs.len() ==> c.x >= #[trigger] subs[j].size.x
            &&& (c.x == 0 || exists|j: int| 0 <= j < subs.len() && c.x == #[trigger] subs[j].size.x)
            &&& c.y == sum_h(subs)
        }),
{
    lemma_max_w(subs);
    lemma_take_full(subs);
    assert(fits_i32(sum_h(subs.take(subs.len() as int))));
    if max_w(subs) != 0 {
        let j = choose|j: int| 0 <= j < subs.len() && max_w(subs) == #[trigger] subs[j].size.x;
        assert(fits_i32(max_w(subs)));
    }
}

/// The sum of the widths in `subs`, if every partial sum fits in `i32`.
pub fn width_sum(subs: &[ElementMeasure]) -> (r: Option<i32>)
    ensures
        r is Some <==> widths_fit(subs@),
        r matches Some(s) ==> s == sum_w(subs@),
{
    let mut acc: i32 = 0;
    let mut k: usize = 0;
    proof {
        assert(subs@.take(0) =~= Seq::<ElementMeasure>::empty());
    }
    while k < subs.len()
        invariant
            0 <= k <= subs@.len(),
            acc == sum_w(subs@.take(k as int)),
            forall|q: int| 0 <= q <= k ==> #[trigger] fits_i32(sum_w(subs@.take(q))),
        decreases subs@.len() - k,
    {
        assert(subs@.take(k + 1).drop_last() =~= subs@.take(k as int));
        let next: i64 = acc as i64 + subs[k].size.x as i64;
        if next < i32::MIN as i64 || next > i32::MAX as i64 {
            proof {
                assert(!fits_i32(sum_w(subs@.take(k + 1))));
            }
            return None;
        }
        acc = next as i32;
        k += 1;
    }
    proof {
        lemma_take_full(subs@);
    }
    Some(acc)
}

/// The sum of the heights in `subs`, if every partial sum fits in `i32`.
pub fn height_sum(subs: &[ElementMeasure]) -> (r: Option<i32>)
    ensures
        r is Some <==> heights_fit(subs@),
        r matches Some(s) ==> s == sum_h(subs@),
{
    let mut acc: i32 = 0;
    let mut k: usize = 0;
    proof {
        assert(subs@.take(0) =~= Seq::<ElementMeasure>::empty());
    }
    while k < subs.len()
        invariant
            0 <= k <= subs@.len(),
            acc == sum_h(subs@.take(k as int)),
            forall|q: int| 0 <= q <= k ==> #[trigger] fits_i32(sum_h(subs@.take(q))),
        decreases subs@.len() - k,
    {
        assert(subs@.take(k + 1).drop_last() =~= subs@.take(k as int));
        let next: i64 = acc as i64 + subs[k].size.y as i64;
        if next < i32::MIN as i64 || next > i32::MAX as i64 {
            proof {
                assert(!fits_i32(sum_h(subs@.take(k + 1))));
            }
            return None;
        }
        acc = next as i32;
        k += 1;
    }
    proof {
        lemma_take_full(subs@);
    }
    Some(acc)
}

impl Element {
    /// The size of this element's contents; see `content_size`.
    pub fn measure_element_content(element: &Element, sub_element_measures: &[ElementMeasure], text_size: Vec2i) -> (r: Vec2i)
        requires
            content_fits(*element, sub_element_measures@),
        ensures
            r == content_size(*element, sub_element_measures@, text_size),
    {
        let subs = sub_element_measures;
        match &element.tag {
            Tag::Label { .. } => text_size,
            _ => match &element.layout {
                Layout::Scroll => {
                    Vec2i::new(
                        match element.style.max_width { Some(w) => w, None => element.style.min_width },
                        match element.style.max_height { Some(h) => h, None => element.style.min_height },
                    )
                },
                Layout::Sequential => {
                    // Sequential (plain column):
                    // - Width: largest sub element width
                    // - Height: sum of sub element heights
                    let mut w: i32 = 0;
                    let mut h: i32 = 0;
                    let mut k: usize = 0;
                    while k < subs.len()
                        invariant
                            0 <= k <= subs@.len(),
                            heights_fit(subs@),
                            w == max_w(subs@.take(k as int)),
                            h == sum_h(subs@.take(k as int)),
                        decreases subs@.len() - k,
                    {
                        assert(subs@.take(k + 1).drop_last() =~= subs@.take(k as int));
                        assert(fits_i32(sum_h(subs@.take(k + 1))));
                        let m = subs[k];
                        w = if w >= m.size.x { w } else { m.size.x };
                        h = h + m.size.y;
                        k = k + 1;
                    }
                    proof { lemma_take_full(subs@); }
                    Vec2i::new(w, h)
                },
                Layout::Flex { properties } => {
                    let total_gap = properties.calc_total_gap(subs.len());
                    let mut w: i32 = 0;
                    let mut h: i32 = 0;
                    let mut k: usize = 0;
                    while k < subs.len()
                        invariant
                            0 <= k <= subs@.len(),
                            content_fits(*element, subs@),
                            element.layout == (Layout::Flex { properties: *properties }),
                            !(element.tag is Label),
                            properties.direction == FlexDirection::Row ==> {
                                &&& w == sum_w(subs@.take(k as int))
                                &&& h == max_h(subs@.take(k as int))
                            },
                            properties.direction == FlexDirection::Col ==> {
                                &&& w == max_w(subs@.take(k as int))
                                &&& h == sum_h(subs@.take(k as int))
                            },
                        decreases subs@.len() - k,
                    {
                        assert(subs@.take(k + 1).drop_last() =~= subs@.take(k as int));
                        let m = subs[k];
                        match properties.direction {
                            FlexDirection::Row => {
                                assert(fits_i32(sum_w(subs@.take(k + 1))));
                                w = w + m.size.x;
                                h = if h >= m.size.y { h } else { m.size.y };
                            },
                            FlexDirection::Col => {
                                assert(fits_i32(sum_h(subs@.take(k + 1))));
                                w = if w >= m.size.x { w } else { m.size.x };
                                h = h + m.size.y;
                            },
                        }
                        k = k + 1;
                    }
                    proof { lemma_take_full(subs@); }
                    match properties.direction {
                        FlexDirection::Row => Vec2i::new(w + total_gap, h),
                        FlexDirection::Col => Vec2i::new(w, h + total_gap),
                    }
                },
                Layout::Grid { .. } => {
                    proof { assert(false); }
                    Vec2i::zero()
                },
            },
        }
    }

    /// Whether the contents of this element can be measured; see `content_fits`.
    pub fn can_measure_content(element: &Element, sub_element_measures: &[ElementMeasure]) -> (r: bool)
        ensures
            r == content_fits(*element, sub_element_measures@),
    {
        let subs = sub_element_measures;
        match &element.tag {
            Tag::Label { .. } => true,
            _ => match &element.layout {
                Layout::Scroll => true,
                Layout::Sequential => height_sum(subs).is_some(),
                Layout::Flex { properties } => {
                    if subs.len() < 1 {
                        return false;
                    }
                    match (subs.len() - 1).checked_mul(properties.gap) {
                        None => false,
                        Some(g) => {
                            let tg = g as i32;
                            proof {
                                assert(tg == total_gap(properties.gap, subs@.len() as usize));
                            }
                            match properties.direction {
                                FlexDirection::Row => match width_sum(subs) {
                                    None => false,
                                    Some(w) => fits_i32_exec(w as i128 + tg as i128),
                                },
                                FlexDirection::Col => match height_sum(subs) {
                                    None => false,
                                    Some(h) => fits_i32_exec(h as i128 + tg as i128),
                                },
                            }
                        },
                    }
                },
                Layout::Grid { .. } => false,
            },
        }
    }

    /// Whether this element can be measured; see `measure_fits`.
    pub fn can_measure_element(element: &Element, sub_element_measures: &[ElementMeasure], text_size: Vec2i) -> (r: bool)
        ensures
            r == measure_fits(*element, sub_element_measures@, text_size),
    {
        if !Element::can_measure_content(element, sub_element_measures) {
            return false;
        }
        let content = Element::measure_element_content(element, sub_element_measures, text_size);
        let bw = match element.style.border {
            Some(b) => b.width,
            None => SidedSize { t: 0, r: 0, b: 0, l: 0 },
        };
        let pd = match element.style.padding {
            Some(p) => p,
            None => SidedSize { t: 0, r: 0, b: 0, l: 0 },
        };
        let fx_wide: i128 = bw.l as i128 + bw.r as i128 + pd.l as i128 + pd.r as i128;
        let fy_wide: i128 = bw.t as i128 + bw.b as i128 + pd.t as i128 + pd.b as i128;
        if !(fits_usize_exec(bw.l as i128 + bw.r as i128) && fits_usize_exec(bw.l as i128 + bw.r as i128 + pd.l as i128)
            && fits_usize_exec(fx_wide) && fits_usize_exec(bw.t as i128 + bw.b as i128)
            && fits_usize_exec(bw.t as i128 + bw.b as i128 + pd.t as i128) && fits_usize_exec(fy_wide)
            && fits_usize_exec(bw.l as i128 + pd.l as i128) && fits_usize_exec(bw.t as i128 + pd.t as i128)) {
            return false;
        }
        let fx = (fx_wide as usize) as i32;
        let fy = (fy_wide as usize) as i32;
        let cx: i128 = content.x as i128 + fx as i128;
        let cy: i128 = content.y as i128 + fy as i128;
        if !(fits_i32_exec(cx) && fits_i32_exec(cy)) {
            return false;
        }
        let sx: i128 = if element.style.min_width as i128 >= cx { element.style.min_width as i128 } else { cx };
        let sy: i128 = if element.style.min_height as i128 >= cy { element.style.min_height as i128 } else { cy };
        fits_i32_exec(sx - fx as i128) && fits_i32_exec(sy - fy as i128)
    }

    /// The measure of this element; see `measure_spec`.
    pub fn measure_element(element: &Element, sub_element_measures: &[ElementMeasure], text_size: Vec2i) -> (r: ElementMeasure)
        requires
            measure_fits(*element, sub_element_measures@, text_size),
        ensures
            r == measure_spec(*element, sub_element_measures@, text_size),
    {
        let content_size = Element::measure_element_content(element, sub_element_measures, text_size);

        // Border + padding
        let border = match element.style.border {
            Some(b) => b,
            None => Border::none(),
        };
        let padding = match element.style.padding {
            Some(p) => p,
            None => Padding::new_uniform(0),
        };

        // size is content size plus frame size
        let frame_size_x = (border.width.l + border.width.r + padding.l + padding.r) as i32;
        let frame_size_y = (border.width.t + border.width.b + padding.t + padding.b) as i32;

        let cx = content_size.x + frame_size_x;
        let cy = content_size.y + frame_size_y;
        let size = Vec2i {
            x: if element.style.min_width >= cx { element.style.min_width } else { cx },
            y: if element.style.min_height >= cy { element.style.min_height } else { cy },
        };

        // inner box is size minus frame size
        let inner_box = RenderBox {
            x: (border.width.l + padding.l) as i32,
            y: (border.width.t + padding.t) as i32,
            w: size.x - frame_size_x,
            h: size.y - frame_size_y,
        };

        ElementMeasure { position: Vec2i::zero(), size: size, inner_box: inner_box }
    }
}

} // verus!
