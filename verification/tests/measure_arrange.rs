use amanita::draw::Color;
use amanita::element::{Element, ElementMeasure};
use amanita::layout::{Alignment, Flex, Layout, Spacing};
use amanita::render_box::RenderBox;
use amanita::style::{Border, Font, Padding, SidedSize, Style};
use amanita::tag::Tag;
use amanita::vec2::Vec2i;

fn sized(w: i32, h: i32) -> ElementMeasure {
    ElementMeasure { position: Vec2i::zero(), size: Vec2i::new(w, h), inner_box: RenderBox::zero() }
}

fn frame(layout: Layout, style: Style, elements: Vec<usize>) -> Element {
    Element { index: 0, tag: Tag::Frame, elements, style, layout }
}

fn pos(m: &ElementMeasure) -> (i32, i32) {
    (m.position.x, m.position.y)
}

/// A parent at position 0 with measure `parent` and three children at positions 1, 2, 3.
fn arrange(layout: Layout, parent: ElementMeasure, children: [(i32, i32); 3]) -> Vec<ElementMeasure> {
    let e = frame(layout, Style::default(), vec![1, 2, 3]);
    let mut all = vec![parent, sized(children[0].0, children[0].1), sized(children[1].0, children[1].1), sized(children[2].0, children[2].1)];
    Element::arrange_element_content(&e, &parent, &mut all);
    all
}

fn parent_box(x: i32, y: i32, w: i32, h: i32) -> ElementMeasure {
    ElementMeasure { position: Vec2i::new(x, y), size: Vec2i::new(w + 4, h + 4), inner_box: RenderBox::new(2, 2, w, h) }
}

#[test]
fn label_content_is_its_text() {
    let e = Element {
        index: 0,
        tag: Tag::Label { text: String::from("abc"), font: Font { size: 8 } },
        elements: vec![],
        style: Style::default(),
        layout: Layout::Scroll,
    };
    let c = Element::measure_element_content(&e, &[], Vec2i::new(31, 9));
    assert_eq!((c.x, c.y), (31, 9));
}

#[test]
fn scroll_content_is_max_size_or_min_size() {
    let e = frame(Layout::Scroll, Style::default().max_size(300, 400), vec![1]);
    let c = Element::measure_element_content(&e, &[sized(1000, 1000)], Vec2i::zero());
    assert_eq!((c.x, c.y), (300, 400));
    let e2 = frame(Layout::Scroll, Style::default().min_size(30, 40), vec![1]);
    let c2 = Element::measure_element_content(&e2, &[sized(1000, 1000)], Vec2i::zero());
    assert_eq!((c2.x, c2.y), (30, 40));
}

#[test]
fn sequential_content_is_widest_by_total_height() {
    let e = frame(Layout::Sequential, Style::default(), vec![1, 2, 3]);
    let c = Element::measure_element_content(&e, &[sized(10, 5), sized(30, 6), sized(20, 7)], Vec2i::zero());
    assert_eq!((c.x, c.y), (30, 18));
    let empty = Element::measure_element_content(&e, &[], Vec2i::zero());
    assert_eq!((empty.x, empty.y), (0, 0));
    let negative = Element::measure_element_content(&e, &[sized(-10, 5)], Vec2i::zero());
    assert_eq!((negative.x, negative.y), (0, 5));
}

#[test]
fn flex_content_adds_gaps_along_the_axis() {
    let row = frame(Flex::row().item_gap(4).build(), Style::default(), vec![1, 2, 3]);
    let c = Element::measure_element_content(&row, &[sized(10, 5), sized(30, 6), sized(20, 7)], Vec2i::zero());
    assert_eq!((c.x, c.y), (68, 7));
    let col = frame(Flex::col().item_gap(4).build(), Style::default(), vec![1, 2, 3]);
    let d = Element::measure_element_content(&col, &[sized(10, 5), sized(30, 6), sized(20, 7)], Vec2i::zero());
    assert_eq!((d.x, d.y), (30, 26));
}

#[test]
fn measure_adds_border_and_padding_and_respects_min_size() {
    let style = Style::default()
        .padding(SidedSize::new(1, 2, 3, 4))
        .border(Border { color: Color::new(0, 0, 0, 255), width: SidedSize::new_uniform(5) })
        .min_size(0, 100);
    let e = frame(Layout::Sequential, style, vec![1]);
    let m = Element::measure_element(&e, &[sized(40, 10)], Vec2i::zero());
    // frame: 5 + 5 + 4 + 2 = 16 across, 5 + 5 + 1 + 3 = 14 down
    assert_eq!((m.size.x, m.size.y), (56, 100));
    assert_eq!((m.inner_box.x, m.inner_box.y, m.inner_box.w, m.inner_box.h), (9, 6, 40, 86));
    assert_eq!((m.position.x, m.position.y), (0, 0));
}

#[test]
fn measure_without_border_or_padding() {
    let e = frame(Layout::Sequential, Style::default(), vec![]);
    let m = Element::measure_element(&e, &[], Vec2i::zero());
    assert_eq!((m.size.x, m.size.y), (0, 0));
    let p = frame(Layout::Sequential, Style::default().padding(Padding::new_uniform(3)), vec![]);
    let q = Element::measure_element(&p, &[], Vec2i::zero());
    assert_eq!((q.size.x, q.size.y), (6, 6));
    assert_eq!((q.inner_box.x, q.inner_box.w), (3, 0));
}

#[test]
fn sequential_stacks_children() {
    let all = arrange(Layout::Sequential, parent_box(100, 200, 50, 50), [(10, 5), (30, 6), (20, 7)]);
    assert_eq!(pos(&all[1]), (102, 202));
    assert_eq!(pos(&all[2]), (102, 207));
    assert_eq!(pos(&all[3]), (102, 213));
    assert_eq!(pos(&all[0]), (100, 200));
    assert_eq!((all[3].size.x, all[3].size.y), (20, 7));
}

#[test]
fn scroll_stacks_like_sequential() {
    let all = arrange(Layout::Scroll, parent_box(0, 0, 50, 50), [(10, 5), (30, 6), (20, 7)]);
    assert_eq!(pos(&all[3]), (2, 13));
}

#[test]
fn grid_and_childless_frames_move_nothing() {
    let grid = Layout::Grid { gap_row: 1, gap_col: 1, rows: 2, cols: 2 };
    let all = arrange(grid, parent_box(0, 0, 50, 50), [(10, 5), (30, 6), (20, 7)]);
    for m in &all[1..] {
        assert_eq!(pos(m), (0, 0));
    }
    let e = frame(Layout::Sequential, Style::default(), vec![]);
    let mut one = vec![sized(1, 1)];
    let p = parent_box(9, 9, 1, 1);
    Element::arrange_element_content(&e, &p, &mut one);
    assert_eq!(pos(&one[0]), (0, 0));
}

fn row(gap: usize, axis: Alignment, cross: Alignment, spacing: Spacing) -> Layout {
    Flex::row().item_gap(gap).axis_align(axis).cross_align(cross).spacing(spacing).build()
}

#[test]
fn flex_row_start_center_end() {
    // inner box starts at (2, 2) and is 100 x 20; children 10 + 20 + 30 = 60 wide, gap 5
    let start = arrange(row(5, Alignment::Start, Alignment::Start, Spacing::NoSpacing), parent_box(0, 0, 100, 20), [(10, 4), (20, 6), (30, 8)]);
    assert_eq!((pos(&start[1]), pos(&start[2]), pos(&start[3])), ((2, 2), (17, 2), (42, 2)));
    let center = arrange(row(5, Alignment::Center, Alignment::Center, Spacing::NoSpacing), parent_box(0, 0, 100, 20), [(10, 4), (20, 6), (30, 8)]);
    // unused 100 - 10 - 60 = 30, half is 15; across: (20 - h) / 2
    assert_eq!((pos(&center[1]), pos(&center[2]), pos(&center[3])), ((17, 10), (32, 9), (57, 8)));
    let end = arrange(row(5, Alignment::End, Alignment::End, Spacing::NoSpacing), parent_box(0, 0, 100, 20), [(10, 4), (20, 6), (30, 8)]);
    assert_eq!((pos(&end[1]), pos(&end[2]), pos(&end[3])), ((32, 18), (47, 16), (72, 14)));
    // the last child ends at the inner box's end: 72 + 30 == 2 + 100
    assert_eq!(end[3].position.x + end[3].size.x, 102);
}

#[test]
fn flex_spacing_between_around_even() {
    // unused: 100 - (10 + 60) = 30
    let between = arrange(row(5, Alignment::Start, Alignment::Start, Spacing::Between), parent_box(0, 0, 100, 20), [(10, 4), (20, 6), (30, 8)]);
    // space 30 / 2 = 15
    assert_eq!((between[1].position.x, between[2].position.x, between[3].position.x), (2, 32, 72));
    let around = arrange(row(5, Alignment::Start, Alignment::Start, Spacing::Around), parent_box(0, 0, 100, 20), [(10, 4), (20, 6), (30, 8)]);
    // space 30 / 6 = 5: first at start + 5, then gap + 10 after each
    assert_eq!((around[1].position.x, around[2].position.x, around[3].position.x), (7, 32, 67));
    let even = arrange(row(5, Alignment::Start, Alignment::Start, Spacing::Even), parent_box(0, 0, 100, 20), [(10, 4), (20, 6), (30, 8)]);
    // space 30 / 4 = 7
    assert_eq!((even[1].position.x, even[2].position.x, even[3].position.x), (9, 31, 63));
}

#[test]
fn flex_spacing_rounds_negative_space_towards_zero() {
    // children overflow: unused = 10 - (10 + 60) = -60; between: -60 / 2 = -30
    let between = arrange(row(5, Alignment::Start, Alignment::Start, Spacing::Between), parent_box(0, 0, 10, 20), [(10, 4), (20, 6), (30, 8)]);
    assert_eq!((between[1].position.x, between[2].position.x, between[3].position.x), (2, -13, -18));
    // center with negative room: (10 - 10 - 60) / 2 = -30
    let center = arrange(row(5, Alignment::Center, Alignment::Center, Spacing::NoSpacing), parent_box(0, 0, 10, 3), [(10, 4), (20, 6), (30, 8)]);
    assert_eq!(center[1].position.x, -28);
    // across: (3 - 4) / 2 rounds to 0, (3 - 6) / 2 to -1
    assert_eq!((center[1].position.y, center[2].position.y), (2, 1));
}

#[test]
fn flex_col_places_along_y() {
    let layout = Flex::col().item_gap(2).cross_align(Alignment::End).build();
    let all = arrange(layout, parent_box(10, 10, 40, 100), [(10, 5), (20, 6), (30, 7)]);
    // start at inner y 12; across: 12 + 40 - width
    assert_eq!((pos(&all[1]), pos(&all[2]), pos(&all[3])), ((42, 12), (32, 19), (22, 27)));
}

#[test]
fn stretch_grows_children_to_fill_the_row() {
    // inner box 100 wide, children 10, 20 and 30 wide, gap 5: 30 to share, 10 each
    let layout = Flex::row().item_gap(5).spacing(Spacing::Stretch).build();
    let all = arrange(layout, parent_box(0, 0, 100, 40), [(10, 5), (20, 6), (30, 7)]);
    assert_eq!(pos(&all[1]), (2, 19));
    assert_eq!(pos(&all[2]), (27, 19));
    assert_eq!(pos(&all[3]), (62, 18));
    assert_eq!((all[1].size.x, all[2].size.x, all[3].size.x), (20, 30, 40));
    assert_eq!((all[1].size.y, all[2].size.y, all[3].size.y), (5, 6, 7));
    assert_eq!((all[1].inner_box.w, all[3].inner_box.w), (10, 10));
    // the last child ends at the far edge of the inner box
    assert_eq!(all[3].position.x + all[3].size.x, 2 + 100);
}

#[test]
fn stretch_column_shares_space_rounding_down() {
    // inner box 50 tall, children 5, 6 and 7 tall, no gap: 32 to share, 10 each
    let layout = Flex::col().spacing(Spacing::Stretch).build();
    let all = arrange(layout, parent_box(0, 0, 40, 50), [(10, 5), (20, 6), (30, 7)]);
    assert_eq!((all[1].size.y, all[2].size.y, all[3].size.y), (15, 16, 17));
    assert_eq!((pos(&all[1]).1, pos(&all[2]).1, pos(&all[3]).1), (2, 17, 33));
    assert_eq!((all[1].size.x, all[3].size.x), (10, 30));
}
