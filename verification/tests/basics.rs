use amanita::draw::{Color, DrawKind};
use amanita::element::Element;
use amanita::layout::{Alignment, Flex, FlexDirection, Layout, Spacing};
use amanita::render_box::RenderBox;
use amanita::style::{Border, Font, Padding, SidedSize, Style};
use amanita::tag::{Label, Tag};
use amanita::vec2::Vec2i;

fn rb(b: &RenderBox) -> (i32, i32, i32, i32) {
    (b.x, b.y, b.w, b.h)
}

#[test]
fn total_gap_of_three_items() {
    let f = Flex::row().item_gap(6);
    assert_eq!(f.calc_total_gap(3), 12);
}

#[test]
fn total_gap_of_one_item_is_zero() {
    let f = Flex::col().item_gap(9);
    assert_eq!(f.calc_total_gap(1), 0);
}

#[test]
fn vec_add_then_sub() {
    let a = Vec2i::new(3, 4);
    let b = Vec2i::new(-1, 7);
    let c = (a + b) - b;
    assert_eq!((c.x, c.y), (3, 4));
    let s = a + b;
    assert_eq!((s.x, s.y), (2, 11));
}

#[test]
fn vec_max_min_componentwise() {
    let a = Vec2i::new(3, -4);
    let b = Vec2i::new(1, 7);
    let mx = a.max(b);
    let mn = a.min(b);
    assert_eq!((mx.x, mx.y), (3, 7));
    assert_eq!((mn.x, mn.y), (1, -4));
    let z = Vec2i::zero();
    assert_eq!((z.x, z.y), (0, 0));
    let t: Vec2i = (5, 6).into();
    assert_eq!((t.x, t.y), (5, 6));
}

#[test]
fn shrink_moves_each_edge_inwards() {
    let b = RenderBox::new(10, 20, 100, 50);
    let s = b.shrink(1, 2, 3, 4);
    assert_eq!(rb(&s), (14, 21, 94, 46));
    assert_eq!(rb(&b.shrink(0, 0, 0, 0)), rb(&b));
    let twice = b.shrink(1, 2, 3, 4).shrink(5, 6, 7, 8);
    let once = b.shrink(6, 8, 10, 12);
    assert_eq!(rb(&twice), rb(&once));
}

#[test]
fn zero_box_and_size() {
    assert_eq!(rb(&RenderBox::zero()), (0, 0, 0, 0));
    let s = RenderBox::new(1, 2, 30, 40).size();
    assert_eq!((s.x, s.y), (30, 40));
}

#[test]
fn split_x_makes_equal_columns() {
    let b = RenderBox::new(10, 20, 100, 50);
    let cols = b.split_x(3, 5);
    assert_eq!(cols.len(), 3);
    assert_eq!(rb(&cols[0]), (10, 20, 30, 50));
    assert_eq!(rb(&cols[1]), (45, 20, 30, 50));
    assert_eq!(rb(&cols[2]), (80, 20, 30, 50));
}

#[test]
fn split_x_rounds_towards_zero() {
    let b = RenderBox::new(0, 0, 5, 10);
    let cols = b.split_x(3, 5);
    // (5 - 10) / 3 rounds to -1
    assert_eq!(rb(&cols[0]), (0, 0, -1, 10));
    assert_eq!(rb(&cols[1]), (4, 0, -1, 10));
    assert_eq!(rb(&cols[2]), (8, 0, -1, 10));
}

#[test]
fn split_x_one_column_is_the_box() {
    let b = RenderBox::new(7, 8, 99, 10);
    let cols = b.split_x(1, 50);
    assert_eq!(cols.len(), 1);
    assert_eq!(rb(&cols[0]), (7, 8, 99, 10));
}

#[test]
fn sided_sizes() {
    let s = SidedSize::new(1, 2, 3, 4);
    assert_eq!((s.t, s.r, s.b, s.l), (1, 2, 3, 4));
    let u = SidedSize::new_uniform(5);
    assert_eq!((u.t, u.r, u.b, u.l), (5, 5, 5, 5));
    let v = SidedSize::new_symmetrical(1, 2);
    assert_eq!((v.t, v.r, v.b, v.l), (1, 2, 1, 2));
}

#[test]
fn padding_and_border_internal_boxes() {
    let b = RenderBox::new(0, 0, 50, 40);
    let p: Padding = SidedSize::new(1, 2, 3, 4);
    assert_eq!(rb(&p.internal_box(&b)), (4, 1, 44, 36));
    let border = Border { color: Color::new(1, 2, 3, 4), width: SidedSize::new_uniform(2) };
    assert_eq!(rb(&border.internal_box(&b)), (2, 2, 46, 36));
}

#[test]
fn border_none_is_invisible_and_thin() {
    let n = Border::none();
    assert_eq!(n.color, Color::new(255, 255, 255, 0));
    assert_eq!((n.width.t, n.width.r, n.width.b, n.width.l), (0, 0, 0, 0));
}

#[test]
fn border_render_draws_four_sides() {
    let color = Color::new(9, 8, 7, 255);
    let border = Border { color, width: SidedSize::new(1, 2, 3, 4) };
    let ops = border.render(&RenderBox::new(10, 20, 100, 50));
    assert_eq!(ops.len(), 4);
    assert_eq!(rb(&ops[0].area), (10, 20, 4, 50));
    assert_eq!(rb(&ops[1].area), (10, 20, 100, 1));
    assert_eq!(rb(&ops[2].area), (108, 20, 2, 50));
    assert_eq!(rb(&ops[3].area), (10, 67, 100, 3));
    for op in &ops {
        assert_eq!(op.kind, DrawKind::FillRect);
        assert_eq!(op.color, color);
        assert!(op.clip.is_none());
    }
}

#[test]
fn style_default_and_builders() {
    let d = Style::default();
    assert!(d.padding.is_none() && d.border.is_none() && d.background.is_none());
    assert_eq!((d.min_width, d.min_height), (0, 0));
    assert!(d.max_width.is_none() && d.max_height.is_none());
    let s = Style::default()
        .padding(Padding::new_uniform(3))
        .border(Border::none())
        .background(Color::new(1, 1, 1, 1))
        .min_width(5)
        .max_width(50)
        .min_height(6)
        .max_height(60);
    assert_eq!(s.padding.unwrap().l, 3);
    assert!(s.border.is_some());
    assert_eq!(s.background, Some(Color::new(1, 1, 1, 1)));
    assert_eq!((s.min_width, s.max_width, s.min_height, s.max_height), (5, Some(50), 6, Some(60)));
    let t = Style::default().min_size(7, 8).max_size(70, 80);
    assert_eq!((t.min_width, t.min_height, t.max_width, t.max_height), (7, 8, Some(70), Some(80)));
}

#[test]
fn flex_defaults_and_builders() {
    let r = Flex::row();
    assert_eq!((r.gap, r.direction, r.is_reverse), (0, FlexDirection::Row, false));
    assert_eq!((r.axis_alignment, r.cross_alignment, r.spacing), (Alignment::Start, Alignment::Center, Spacing::NoSpacing));
    let c = Flex::col();
    assert_eq!((c.direction, c.cross_alignment), (FlexDirection::Col, Alignment::Start));
    let f = Flex::row().item_gap(4).reverse().axis_align(Alignment::End).cross_align(Alignment::Start).spacing(Spacing::Even);
    assert_eq!((f.gap, f.is_reverse, f.axis_alignment, f.cross_alignment, f.spacing), (4, true, Alignment::End, Alignment::Start, Spacing::Even));
    match f.build() {
        Layout::Flex { properties } => assert_eq!(properties.gap, 4),
        _ => panic!("not a flex layout"),
    }
}

#[test]
fn label_new_holds_text_and_font() {
    match Label::new(String::from("hi"), Font { size: 12 }) {
        Tag::Label { text, font } => {
            assert_eq!(text, "hi");
            assert_eq!(font.size, 12);
        }
        _ => panic!("not a label"),
    }
}

#[test]
fn render_element_outline_then_background() {
    let e = Element {
        index: 0,
        tag: Tag::Frame,
        elements: vec![],
        style: Style::default().background(Color::new(0, 0, 255, 255)),
        layout: Layout::Sequential,
    };
    let m = amanita::element::ElementMeasure {
        position: Vec2i::new(5, 6),
        size: Vec2i::new(10, 20),
        inner_box: RenderBox::zero(),
    };
    let mut ops = Vec::new();
    Element::render_element(&e, Vec2i::new(100, 200), &m, None, &mut ops);
    assert_eq!(ops.len(), 2);
    assert_eq!(ops[0].kind, DrawKind::OutlineRect);
    assert_eq!(ops[0].color, Color::red());
    assert_eq!(rb(&ops[0].area), (105, 206, 10, 20));
    assert_eq!(ops[1].kind, DrawKind::FillRect);
    assert_eq!(ops[1].color, Color::new(0, 0, 255, 255));
    let plain = Element { style: Style::default(), ..e };
    let mut ops2 = Vec::new();
    Element::render_element(&plain, Vec2i::zero(), &m, Some(RenderBox::new(0, 0, 1, 1)), &mut ops2);
    assert_eq!(ops2.len(), 1);
    assert_eq!(rb(&ops2[0].clip.unwrap()), (0, 0, 1, 1));
}
