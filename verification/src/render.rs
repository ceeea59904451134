use vstd::prelude::*;

use crate::arith::{fits_i32, fits_i32_exec};
use crate::draw::{Color, DrawKind, DrawOp};
use crate::element::{Element, ElementMeasure};
use crate::layout::Layout;
use crate::order::{is_render_order, lemma_render_order_distinct, tree_wf, unique_parents};
use crate::render_box::RenderBox;
use crate::vec2::Vec2i;
use std::collections::HashMap;

verus! {

/// Where clipped elements are drawn: for each element index, the clip box and the offset.
pub type ClipMap = Map<usize, (RenderBox, Vec2i)>;

/// The offset given, or zero.
pub open spec fn offset_or_zero(offset: Option<Vec2i>) -> Vec2i {
    match offset {
        Some(o) => o,
        None => Vec2i { x: 0, y: 0 },
    }
}

/// The box an element with measure `m` covers when drawn at `offset`.
pub open spec fn drawn_area(m: ElementMeasure, offset: Vec2i) -> RenderBox {
    RenderBox {
        x: (m.position.x + offset.x) as i32,
        y: (m.position.y + offset.y) as i32,
        w: m.size.x,
        h: m.size.y,
    }
}

/// The operations that draw an element: its outline in red, then its background if it has one.
pub open spec fn element_ops(el: Element, m: ElementMeasure, offset: Vec2i, clip: Option<RenderBox>) -> Seq<DrawOp> {
    let area = drawn_area(m, offset);
    seq![DrawOp { kind: DrawKind::OutlineRect, area: area, color: Color::red_spec(), clip: clip }] + match el.style.background {
        Some(bg) => seq![DrawOp { kind: DrawKind::FillRect, area: area, color: bg, clip: clip }],
        None => Seq::empty(),
    }
}

/// Whether drawing an element with measure `m` at `offset` stays within `i32`.
pub open spec fn element_ops_fit(m: ElementMeasure, offset: Vec2i) -> bool {
    fits_i32(m.position.x + offset.x) && fits_i32(m.position.y + offset.y)
}

/// `map` with each of `keys` mapped to `v`.
pub open spec fn insert_all(map: ClipMap, keys: Seq<usize>, v: (RenderBox, Vec2i)) -> ClipMap
    decreases keys.len(),
{
    if keys.len() == 0 {
        map
    } else {
        insert_all(map, keys.drop_last(), v).insert(keys.last(), v)
    }
}

/// The clip box of a scroll frame: its inner box, at its position plus `offset`.
pub open spec fn scroll_clip(m: ElementMeasure, offset: Vec2i) -> RenderBox {
    RenderBox {
        x: (m.inner_box.x + offset.x + m.position.x) as i32,
        y: (m.inner_box.y + offset.y + m.position.y) as i32,
        w: m.inner_box.w,
        h: m.inner_box.h,
    }
}

#[verifier::opaque]
/// Rendering one element, given the operations and clip map so far.
///
/// An element in the clip map is drawn inside its clip box at its clip offset, and (unless it
/// scrolls) passes both on to its sub-elements; any other element is drawn unclipped at
/// `offset`. A scroll frame then clips its sub-elements to its inner box and shifts them down
/// by its scroll offset `scroll`.
pub open spec fn render_step(el: Element, m: ElementMeasure, offset: Vec2i, scroll: i32, x: usize, state: (Seq<DrawOp>, ClipMap)) -> (Seq<DrawOp>, ClipMap) {
    let (ops, map) = state;
    let (ops2, map2) = if map.contains_key(x) {
        let (clip_region, clip_offset) = map[x];
        (
            ops + element_ops(el, m, clip_offset, Some(clip_region)),
            if !(el.layout is Scroll) {
                insert_all(map, el.elements@, (clip_region, clip_offset))
            } else {
                map
            },
        )
    } else {
        (ops + element_ops(el, m, offset, None), map)
    };
    if el.layout is Scroll {
        (ops2, insert_all(map2, el.elements@, (scroll_clip(m, offset), Vec2i { x: offset.x, y: (offset.y + scroll) as i32 })))
    } else {
        (ops2, map2)
    }
}

#[verifier::opaque]
/// Whether rendering one element stays within `i32` and finds a body in each scroll frame.
pub open spec fn render_step_fits(el: Element, m: ElementMeasure, offset: Vec2i, scroll: i32, x: usize, map: ClipMap) -> bool {
    &&& if map.contains_key(x) {
        element_ops_fit(m, map[x].1)
    } else {
        element_ops_fit(m, offset)
    }
    &&& el.layout is Scroll ==> {
        &&& el.elements@.len() >= 1
        &&& fits_i32(m.inner_box.x + offset.x)
        &&& fits_i32(m.inner_box.x + offset.x + m.position.x)
        &&& fits_i32(m.inner_box.y + offset.y)
        &&& fits_i32(m.inner_box.y + offset.y + m.position.y)
        &&& fits_i32(offset.y + scroll)
    }
}

/// The operations and clip map after rendering, in turn, the elements listed in `ro`.
pub open spec fn rendered(els: Seq<Element>, ms: Seq<ElementMeasure>, scroll: Seq<i32>, offset: Vec2i, ro: Seq<usize>) -> (Seq<DrawOp>, ClipMap)
    decreases ro.len(),
{
    if ro.len() == 0 {
        (Seq::empty(), Map::empty())
    } else {
        let x = ro.last();
        render_step(els[x as int], ms[x as int], offset, scroll[x as int], x, rendered(els, ms, scroll, offset, ro.drop_last()))
    }
}

/// The operations that draw the elements listed in `ro` one after the other, each unclipped at
/// `offset`.
pub open spec fn plain_ops(els: Seq<Element>, ms: Seq<ElementMeasure>, offset: Vec2i, ro: Seq<usize>) -> Seq<DrawOp>
    decreases ro.len(),
{
    if ro.len() == 0 {
        Seq::empty()
    } else {
        let x = ro.last() as int;
        plain_ops(els, ms, offset, ro.drop_last()) + element_ops(els[x], ms[x], offset, None)
    }
}

/// Without scroll frames nothing is clipped: each element is drawn, in render order, at its
/// position plus the offset.
pub proof fn lemma_render_without_scroll(els: Seq<Element>, ms: Seq<ElementMeasure>, sc: Seq<i32>, offset: Vec2i, ro: Seq<usize>)
    requires
        forall|k: int| 0 <= k < ro.len() ==> !(els[#[trigger] ro[k] as int].layout is Scroll),
    ensures
        rendered(els, ms, sc, offset, ro).1 == Map::<usize, (RenderBox, Vec2i)>::empty(),
        rendered(els, ms, sc, offset, ro).0 == plain_ops(els, ms, offset, ro),
    decreases ro.len(),
{
    reveal(render_step);
    if ro.len() > 0 {
        lemma_render_without_scroll(els, ms, sc, offset, ro.drop_last());
        assert(ro.last() == ro[ro.len() - 1]);
    }
}

/// Drawing an element at an offset outlines in opaque red the box at its position plus the
/// offset, of its size, and then fills that box with its background if it has one; both carry
/// the clip box they are given.
pub proof fn lemma_element_ops_fields(el: Element, m: ElementMeasure, offset: Vec2i, clip: Option<RenderBox>)
    requires
        element_ops_fit(m, offset),
    ensures
        ({
            let ops = element_ops(el, m, offset, clip);
            let area = RenderBox {
                x: (m.position.x + offset.x) as i32,
                y: (m.position.y + offset.y) as i32,
                w: m.size.x,
                h: m.size.y,
            };
            &&& area.x == m.position.x + offset.x
            &&& area.y == m.position.y + offset.y
            &&& ops.len() == (if el.style.background is Some { 2int } else { 1int })
            &&& ops[0] == (DrawOp { kind: DrawKind::OutlineRect, area: area, color: Color { r: 255, g: 0, b: 0, a: 255 }, clip: clip })
            &&& el.style.background is Some ==> ops[1] == (DrawOp {
                kind: DrawKind::FillRect,
                area: area,
                color: el.style.background->0,
                clip: clip,
            })
        }),
{
}

/// Rendering a scroll frame clips each of its sub-elements to the frame's inner box where the
/// frame is drawn (the frame's position plus the inner box's corner plus the offset, the inner
/// box's size), and shifts them by the offset moved down by the frame's scroll offset.
pub proof fn lemma_scroll_step_clip(el: Element, m: ElementMeasure, offset: Vec2i, scroll: i32, x: usize, state: (Seq<DrawOp>, ClipMap), j: int)
    requires
        el.layout is Scroll,
        render_step_fits(el, m, offset, scroll, x, state.1),
        0 <= j < el.elements@.len(),
    ensures
        ({
            let map = render_step(el, m, offset, scroll, x, state).1;
            let c = el.elements@[j];
            &&& map.contains_key(c)
            &&& map[c].0.x == m.position.x + m.inner_box.x + offset.x
            &&& map[c].0.y == m.position.y + m.inner_box.y + offset.y
            &&& map[c].0.w == m.inner_box.w
            &&& map[c].0.h == m.inner_box.h
            &&& map[c].1.x == offset.x
            &&& map[c].1.y == offset.y + scroll
        }),
{
    reveal(render_step);
    reveal(render_step_fits);
    let (ops, map) = state;
    let map2 = if map.contains_key(x) && !(el.layout is Scroll) {
        insert_all(map, el.elements@, map[x])
    } else {
        map
    };
    assert(el.elements@.contains(el.elements@[j]));
    lemma_insert_all(map2, el.elements@, scroll_entry(m, offset, scroll), el.elements@[j]);
}

/// Inserting keys maps each of them to the value, and leaves other keys as they were.
pub proof fn lemma_insert_all(map: ClipMap, keys: Seq<usize>, v: (RenderBox, Vec2i), x: usize)
    ensures
        keys.contains(x) ==> insert_all(map, keys, v).contains_key(x) && insert_all(map, keys, v)[x] == v,
        !keys.contains(x) ==> insert_all(map, keys, v).contains_key(x) == map.contains_key(x)
            && (map.contains_key(x) ==> insert_all(map, keys, v)[x] == map[x]),
    decreases keys.len(),
{
    if keys.len() > 0 {
        lemma_insert_all(map, keys.drop_last(), v, x);
        if keys.contains(x) && x != keys.last() {
            let i = choose|i: int| 0 <= i < keys.len() && keys[i] == x;
            assert(i != keys.len() - 1);
            assert(keys.drop_last()[i] == x);
        }
        if !keys.contains(x) {
            assert forall|i: int| 0 <= i < keys.drop_last().len() implies keys.drop_last()[i] != x by {
                assert(keys.drop_last()[i] == keys[i]);
            }
            assert(keys[keys.len() - 1] != x);
        }
    }
}

/// The clip box and offset that a scroll frame gives its body.
pub open spec fn scroll_entry(m: ElementMeasure, offset: Vec2i, scroll: i32) -> (RenderBox, Vec2i) {
    (scroll_clip(m, offset), Vec2i { x: offset.x, y: (offset.y + scroll) as i32 })
}

proof fn lemma_scroll_entry_kept(
    els: Seq<Element>,
    ms: Seq<ElementMeasure>,
    sc: Seq<i32>,
    offset: Vec2i,
    ro: Seq<usize>,
    k: int,
    q: int,
)
    requires
        tree_wf(els),
        unique_parents(els),
        is_render_order(els, ro),
        0 <= k < q <= ro.len(),
        els[ro[k] as int].layout is Scroll,
        els[ro[k] as int].elements@.len() >= 1,
    ensures
        ({
            let b = els[ro[k] as int].elements@[0];
            let map = rendered(els, ms, sc, offset, ro.take(q)).1;
            map.contains_key(b) && map[b] == scroll_entry(ms[ro[k] as int], offset, sc[ro[k] as int])
        }),
    decreases q,
{
    reveal(render_step);
    let b = els[ro[k] as int].elements@[0];
    let v = scroll_entry(ms[ro[k] as int], offset, sc[ro[k] as int]);
    let x = ro[q - 1];
    assert(ro.take(q).drop_last() =~= ro.take(q - 1));
    assert(ro.take(q).last() == x);
    let prev = rendered(els, ms, sc, offset, ro.take(q - 1));
    let el = els[x as int];
    if q == k + 1 {
        assert(el.elements@[0] == b);
        assert(el.elements@.contains(b));
        let map2 = if prev.1.contains_key(x) && !(el.layout is Scroll) {
            insert_all(prev.1, el.elements@, prev.1[x])
        } else {
            prev.1
        };
        lemma_insert_all(map2, el.elements@, v, b);
    } else {
        lemma_scroll_entry_kept(els, ms, sc, offset, ro, k, q - 1);
        lemma_render_order_distinct(els, ro);
        assert(ro[k] != x);
        assert(!el.elements@.contains(b)) by {
            if el.elements@.contains(b) {
                let j = choose|j: int| 0 <= j < el.elements@.len() && el.elements@[j] == b;
                assert(els[x as int].elements@[j] == els[ro[k] as int].elements@[0]);
            }
        }
        if prev.1.contains_key(x) {
            lemma_insert_all(prev.1, el.elements@, prev.1[x], b);
        }
        let map2 = if prev.1.contains_key(x) && !(el.layout is Scroll) {
            insert_all(prev.1, el.elements@, prev.1[x])
        } else {
            prev.1
        };
        lemma_insert_all(map2, el.elements@, scroll_entry(ms[x as int], offset, sc[x as int]), b);
    }
}

/// In a tree, the body of a scroll frame is drawn inside the frame's inner box (at the frame's
/// position plus the offset), moved down by the frame's scroll offset.
pub proof fn lemma_scroll_body_clipped(
    els: Seq<Element>,
    ms: Seq<ElementMeasure>,
    sc: Seq<i32>,
    offset: Vec2i,
    ro: Seq<usize>,
    k: int,
    p: int,
)
    requires
        tree_wf(els),
        unique_parents(els),
        is_render_order(els, ro),
        0 <= k < p < ro.len(),
        els[ro[k] as int].layout is Scroll,
        els[ro[k] as int].elements@.len() >= 1,
        ro[p] == els[ro[k] as int].elements@[0],
    ensures
        rendered(els, ms, sc, offset, ro.take(p + 1)).0 == rendered(els, ms, sc, offset, ro.take(p)).0 + element_ops(
            els[ro[p] as int],
            ms[ro[p] as int],
            scroll_entry(ms[ro[k] as int], offset, sc[ro[k] as int]).1,
            Some(scroll_entry(ms[ro[k] as int], offset, sc[ro[k] as int]).0),
        ),
{
    reveal(render_step);
    lemma_scroll_entry_kept(els, ms, sc, offset, ro, k, p);
    assert(ro.take(p + 1).drop_last() =~= ro.take(p));
    assert(ro.take(p + 1).last() == ro[p]);
}

/// In a tree, every operation that draws the body of a scroll frame is clipped to the frame's
/// inner box where the frame is drawn: the clip box starts at the frame's position plus its
/// inner box's corner plus the offset, and is as large as the inner box. The body itself is
/// drawn at its position plus the offset, moved down by the frame's scroll offset.
pub proof fn lemma_scroll_body_clip_box(
    els: Seq<Element>,
    ms: Seq<ElementMeasure>,
    sc: Seq<i32>,
    offset: Vec2i,
    ro: Seq<usize>,
    k: int,
    p: int,
)
    requires
        tree_wf(els),
        is_render_order(els, ro),
        crate::element::renderable(els, ro, ms, sc, offset),
        0 <= k < p < ro.len(),
        els[ro[k] as int].layout is Scroll,
        els[ro[k] as int].elements@.len() >= 1,
        ro[p] == els[ro[k] as int].elements@[0],
    ensures
        ({
            let before = rendered(els, ms, sc, offset, ro.take(p)).0;
            let after = rendered(els, ms, sc, offset, ro.take(p + 1)).0;
            let f = ms[ro[k] as int];
            let b = ms[ro[p] as int];
            &&& after.len() > before.len()
            &&& forall|i: int|
                before.len() <= i < after.len() ==> {
                    let op = #[trigger] after[i];
                    &&& op.clip is Some
                    &&& op.clip->0.x == f.position.x + f.inner_box.x + offset.x
                    &&& op.clip->0.y == f.position.y + f.inner_box.y + offset.y
                    &&& op.clip->0.w == f.inner_box.w
                    &&& op.clip->0.h == f.inner_box.h
                    &&& op.area.x == b.position.x + offset.x
                    &&& op.area.y == b.position.y + offset.y + sc[ro[k] as int]
                }
        }),
{
    lemma_scroll_body_clipped(els, ms, sc, offset, ro, k, p);
    let x = ro[k];
    let prev = rendered(els, ms, sc, offset, ro.take(k));
    assert(render_step_fits(els[x as int], ms[x as int], offset, sc[x as int], x, prev.1));
    reveal(render_step_fits);
    // the body is drawn with the offset the frame gives it, which fits as the body's own step does
    let q = rendered(els, ms, sc, offset, ro.take(p));
    let y = ro[p];
    assert(render_step_fits(els[y as int], ms[y as int], offset, sc[y as int], y, q.1));
    lemma_scroll_entry_kept(els, ms, sc, offset, ro, k, p);
}

proof fn lemma_clip_entry_kept(
    els: Seq<Element>,
    ms: Seq<ElementMeasure>,
    sc: Seq<i32>,
    offset: Vec2i,
    ro: Seq<usize>,
    k: int,
    j: int,
    q: int,
)
    requires
        tree_wf(els),
        unique_parents(els),
        is_render_order(els, ro),
        0 <= k < q <= ro.len(),
        !(els[ro[k] as int].layout is Scroll),
        0 <= j < els[ro[k] as int].elements@.len(),
        rendered(els, ms, sc, offset, ro.take(k)).1.contains_key(ro[k]),
    ensures
        ({
            let c = els[ro[k] as int].elements@[j];
            let map = rendered(els, ms, sc, offset, ro.take(q)).1;
            map.contains_key(c) && map[c] == rendered(els, ms, sc, offset, ro.take(k)).1[ro[k]]
        }),
    decreases q,
{
    reveal(render_step);
    let c = els[ro[k] as int].elements@[j];
    let v = rendered(els, ms, sc, offset, ro.take(k)).1[ro[k]];
    let x = ro[q - 1];
    assert(ro.take(q).drop_last() =~= ro.take(q - 1));
    assert(ro.take(q).last() == x);
    let prev = rendered(els, ms, sc, offset, ro.take(q - 1));
    let el = els[x as int];
    if q == k + 1 {
        assert(el.elements@[j] == c);
        assert(el.elements@.contains(c));
        lemma_insert_all(prev.1, el.elements@, v, c);
    } else {
        lemma_clip_entry_kept(els, ms, sc, offset, ro, k, j, q - 1);
        lemma_render_order_distinct(els, ro);
        assert(ro[k] != x);
        assert(!el.elements@.contains(c)) by {
            if el.elements@.contains(c) {
                let jj = choose|jj: int| 0 <= jj < el.elements@.len() && el.elements@[jj] == c;
                assert(els[x as int].elements@[jj] == els[ro[k] as int].elements@[j]);
            }
        }
        if prev.1.contains_key(x) {
            lemma_insert_all(prev.1, el.elements@, prev.1[x], c);
        }
        let map2 = if prev.1.contains_key(x) && !(el.layout is Scroll) {
            insert_all(prev.1, el.elements@, prev.1[x])
        } else {
            prev.1
        };
        lemma_insert_all(map2, el.elements@, scroll_entry(ms[x as int], offset, sc[x as int]), c);
    }
}

/// In a tree, a frame that is drawn clipped (it is inside a scroll frame) and does not scroll
/// itself passes its clip box and offset on: each of its sub-elements is drawn with them.
pub proof fn lemma_clip_passed_down(
    els: Seq<Element>,
    ms: Seq<ElementMeasure>,
    sc: Seq<i32>,
    offset: Vec2i,
    ro: Seq<usize>,
    k: int,
    j: int,
    p: int,
)
    requires
        tree_wf(els),
        unique_parents(els),
        is_render_order(els, ro),
        0 <= k < p < ro.len(),
        !(els[ro[k] as int].layout is Scroll),
        0 <= j < els[ro[k] as int].elements@.len(),
        ro[p] == els[ro[k] as int].elements@[j],
        rendered(els, ms, sc, offset, ro.take(k)).1.contains_key(ro[k]),
    ensures
        ({
            let entry = rendered(els, ms, sc, offset, ro.take(k)).1[ro[k]];
            rendered(els, ms, sc, offset, ro.take(p + 1)).0 == rendered(els, ms, sc, offset, ro.take(p)).0 + element_ops(
                els[ro[p] as int],
                ms[ro[p] as int],
                entry.1,
                Some(entry.0),
            )
        }),
{
    reveal(render_step);
    lemma_clip_entry_kept(els, ms, sc, offset, ro, k, j, p);
    assert(ro.take(p + 1).drop_last() =~= ro.take(p));
    assert(ro.take(p + 1).last() == ro[p]);
}

impl Element {
    /// Whether rendering one element stays within `i32` and finds a body in a scroll frame; see
    /// `render_step_fits`.
    pub fn can_render_step(
        element: &Element,
        element_index: usize,
        measure: &ElementMeasure,
        offset: Vec2i,
        scroll: i32,
        clip_map: &HashMap<usize, (RenderBox, Vec2i)>,
    ) -> (r: bool)
        ensures
            r == render_step_fits(*element, *measure, offset, scroll, element_index, clip_map@),
    {
        broadcast use vstd::std_specs::hash::group_hash_axioms;
        reveal(render_step_fits);
        let draw_offset = match clip_map.get(&element_index) {
            Some(entry) => entry.1,
            None => offset,
        };
        if !(fits_i32_exec(measure.position.x as i128 + draw_offset.x as i128)
            && fits_i32_exec(measure.position.y as i128 + draw_offset.y as i128)) {
            return false;
        }
        match element.layout {
            Layout::Scroll => {
                let x: i128 = measure.inner_box.x as i128 + offset.x as i128;
                let y: i128 = measure.inner_box.y as i128 + offset.y as i128;
                element.elements.len() >= 1 && fits_i32_exec(x) && fits_i32_exec(x + measure.position.x as i128)
                    && fits_i32_exec(y) && fits_i32_exec(y + measure.position.y as i128)
                    && fits_i32_exec(offset.y as i128 + scroll as i128)
            },
            _ => true,
        }
    }

    /// Renders one element: appends its operations to `ops` and records in `clip_map` how its
    /// sub-elements are clipped; see `render_step`.
    pub fn render_step_exec(
        element: &Element,
        element_index: usize,
        measure: &ElementMeasure,
        offset: Vec2i,
        scroll: i32,
        clip_map: &mut HashMap<usize, (RenderBox, Vec2i)>,
        ops: &mut Vec<DrawOp>,
    )
        requires
            render_step_fits(*element, *measure, offset, scroll, element_index, old(clip_map)@),
        ensures
            (final(ops)@, final(clip_map)@) == render_step(*element, *measure, offset, scroll, element_index, (old(ops)@, old(clip_map)@)),
    {
        broadcast use vstd::std_specs::hash::group_hash_axioms;
        reveal(render_step);
        reveal(render_step_fits);
        let ghost map0 = clip_map@;

        let clip_context = match clip_map.get(&element_index) {
            Some(entry) => {
                let (clip_region, clip_offset) = *entry;
                Element::render_element(element, clip_offset, measure, Some(clip_region), ops);
                Some((clip_region, clip_offset))
            },
            None => {
                Element::render_element(element, offset, measure, None, ops);
                None
            },
        };

        if let Some((clip_region, clip_offset)) = clip_context {
            if !matches!(element.layout, Layout::Scroll) {
                let ghost map1 = clip_map@;
                let mut j: usize = 0;
                while j < element.elements.len()
                    invariant
                        0 <= j <= element.elements@.len(),
                        clip_map@ == insert_all(map1, element.elements@.take(j as int), (clip_region, clip_offset)),
                    decreases element.elements@.len() - j,
                {
                    proof {
                        assert(element.elements@.take(j + 1).drop_last() =~= element.elements@.take(j as int));
                    }
                    clip_map.insert(element.elements[j], (clip_region, clip_offset));
                    j += 1;
                }
                proof {
                    assert(element.elements@.take(element.elements@.len() as int) =~= element.elements@);
                }
            }
        }

        match element.layout {
            Layout::Scroll => {
                // The body is clipped to the frame's inner box and shifted by the scroll offset
                let scroll_clip = RenderBox::new(
                    measure.inner_box.x + offset.x + measure.position.x,
                    measure.inner_box.y + offset.y + measure.position.y,
                    measure.inner_box.w,
                    measure.inner_box.h,
                );
                let scrolled_offset = offset + Vec2i::from((0i32, scroll));
                let ghost map2 = clip_map@;
                let mut j: usize = 0;
                while j < element.elements.len()
                    invariant
                        0 <= j <= element.elements@.len(),
                        clip_map@ == insert_all(map2, element.elements@.take(j as int), (scroll_clip, scrolled_offset)),
                    decreases element.elements@.len() - j,
                {
                    proof {
                        assert(element.elements@.take(j + 1).drop_last() =~= element.elements@.take(j as int));
                    }
                    clip_map.insert(element.elements[j], (scroll_clip, scrolled_offset));
                    j += 1;
                }
                proof {
                    assert(element.elements@.take(element.elements@.len() as int) =~= element.elements@);
                }
            },
            _ => {},
        }
    }

    /// Appends the operations that draw `element` with measure `measure` at `offset`,
    /// clipped to `clip`; see `element_ops`.
    pub fn render_element(element: &Element, offset: Vec2i, measure: &ElementMeasure, clip: Option<RenderBox>, ops: &mut Vec<DrawOp>)
        requires
            element_ops_fit(*measure, offset),
        ensures
            final(ops)@ == old(ops)@ + element_ops(*element, *measure, offset, clip),
    {
        let area = RenderBox::new(
            measure.position.x + offset.x,
            measure.position.y + offset.y,
            measure.size.x,
            measure.size.y,
        );
        ops.push(DrawOp { kind: DrawKind::OutlineRect, area: area, color: Color::red(), clip: clip });
        if let Some(bg) = element.style.background {
            ops.push(DrawOp { kind: DrawKind::FillRect, area: area, color: bg, clip: clip });
        }
        proof {
            assert(ops@ =~= old(ops)@ + element_ops(*element, *measure, offset, clip));
        }
    }
}

} // verus!
