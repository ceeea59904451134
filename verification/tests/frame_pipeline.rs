use amanita::draw::{Color, DrawKind, DrawOp};
use amanita::element::{ElementMeasure, ElementSet};
use amanita::layout::{Alignment, Flex, Spacing};
use amanita::style::{Font, Padding, Style};
use amanita::vec2::Vec2i;
use amanita::vld::MeasureContext;

/// Measures text as 10 pixels per character, as tall as the font size.
struct FixedWidthText;

impl MeasureContext for FixedWidthText {
    fn calculate_text_size(&self, text: &str, size: i32) -> (i32, i32) {
        (10 * text.chars().count() as i32, size)
    }
}

fn yellow() -> Color {
    Color::new(255, 255, 0, 255)
}

fn orange() -> Color {
    Color::new(255, 165, 0, 255)
}

fn red() -> Color {
    Color::new(255, 0, 0, 255)
}

/// The interface of the demo program: a row with a label and a scroll frame around a column
/// of three colored labels.
fn demo_set() -> ElementSet {
    let mut set = ElementSet::new(|s| {
        s.new_frame(
            Flex::row().item_gap(6)
                .axis_align(Alignment::Center)
                .spacing(Spacing::Between)
                .build(),
            Style::default().padding(Padding::new_uniform(3)).min_size(600, 200),
            |s| {
                vec![
                    s.new_label(String::from("one"), Font { size: 32 }, Style::default().padding(Padding::new_uniform(3))),
                    s.new_scroll_frame(
                        Style::default().padding(Padding::new_uniform(3)).max_size(300, 400),
                        |s| {
                            s.new_frame(
                                Flex::col().item_gap(6)
                                    .axis_align(Alignment::Center)
                                    .cross_align(Alignment::Center)
                                    .spacing(Spacing::Between).build(),
                                Style::default().padding(Padding::new_uniform(3)),
                                |s| {
                                    vec![
                                        s.new_label(String::from("two thousand"), Font { size: 48 }, Style::default().padding(Padding::new_uniform(3)).background(yellow())),
                                        s.new_label(String::from("balls"), Font { size: 48 }, Style::default().padding(Padding::new_uniform(3)).background(orange())),
                                        s.new_label(String::from("two"), Font { size: 48 }, Style::default().padding(Padding::new_uniform(3)).background(red())),
                                    ]
                                },
                            )
                        },
                    ),
                ]
            },
        )
    });
    set.sort();
    set
}

/// The same interface built without a closure for the root: the root frame's index comes
/// first all the same.
fn demo_set_by_steps() -> ElementSet {
    let mut s = ElementSet::empty();
    s.new_frame(
        Flex::row().item_gap(6).axis_align(Alignment::Center).spacing(Spacing::Between).build(),
        Style::default().padding(Padding::new_uniform(3)).min_size(600, 200),
        |s| {
            let one = s.new_label(String::from("one"), Font { size: 32 }, Style::default().padding(Padding::new_uniform(3)));
            let scroll = s.new_scroll_frame(Style::default().padding(Padding::new_uniform(3)).max_size(300, 400), |s| {
                s.new_frame(
                    Flex::col().item_gap(6).axis_align(Alignment::Center).cross_align(Alignment::Center).spacing(Spacing::Between).build(),
                    Style::default().padding(Padding::new_uniform(3)),
                    |s| {
                        let a = s.new_label(String::from("two thousand"), Font { size: 48 }, Style::default().padding(Padding::new_uniform(3)).background(yellow()));
                        let b = s.new_label(String::from("balls"), Font { size: 48 }, Style::default().padding(Padding::new_uniform(3)).background(orange()));
                        let c = s.new_label(String::from("two"), Font { size: 48 }, Style::default().padding(Padding::new_uniform(3)).background(red()));
                        vec![a, b, c]
                    },
                )
            });
            vec![one, scroll]
        },
    );
    s.sort();
    s
}

#[test]
fn closures_and_steps_build_the_same_set() {
    let a = demo_set();
    let b = demo_set_by_steps();
    assert_eq!(a.len(), b.len());
    for i in 0..a.len() {
        assert_eq!(a.get(i).index, b.get(i).index);
        assert_eq!(a.get(i).elements, b.get(i).elements);
    }
}

#[test]
fn contents_get_indices_after_their_frame() {
    // unsorted, each frame comes after its contents, with a smaller index than all of them
    let mut s = ElementSet::empty();
    s.new_frame(Flex::row().build(), Style::default(), |s| {
        let x = s.new_label(String::from("x"), Font { size: 1 }, Style::default());
        let y = s.new_scroll_frame(Style::default(), |s| s.new_label(String::from("y"), Font { size: 1 }, Style::default()));
        vec![x, y]
    });
    let idx: Vec<usize> = (0..s.len()).map(|i| s.get(i).index).collect();
    assert_eq!(idx, vec![1, 3, 2, 0]);
    s.sort();
    for i in 0..s.len() {
        assert_eq!(s.get(i).index, i);
    }
    assert!(s.is_well_formed());
}

fn pos(m: &ElementMeasure) -> (i32, i32) {
    (m.position.x, m.position.y)
}

fn size(m: &ElementMeasure) -> (i32, i32) {
    (m.size.x, m.size.y)
}

fn area(op: &DrawOp) -> (i32, i32, i32, i32) {
    (op.area.x, op.area.y, op.area.w, op.area.h)
}

#[test]
fn demo_indices_are_preorder_and_sorted() {
    let s = demo_set();
    assert_eq!(s.len(), 7);
    for i in 0..7 {
        assert_eq!(s.get(i).index, i);
    }
    assert!(s.is_well_formed());
    assert_eq!(s.root().elements, vec![1, 2]);
    assert_eq!(s.get(2).elements, vec![3]);
    assert_eq!(s.get(3).elements, vec![4, 5, 6]);
}

#[test]
fn demo_render_order_is_breadth_first() {
    let mut s = demo_set();
    assert!(s.render_order().is_empty());
    s.update();
    assert_eq!(s.render_order().clone(), vec![0, 1, 2, 3, 4, 5, 6]);
    assert!(s.render_order_is_valid());
}

#[test]
fn demo_measures() {
    let mut s = demo_set();
    s.update();
    let ts = s.text_sizes(&FixedWidthText);
    assert_eq!((ts[1].x, ts[1].y), (30, 32));
    assert_eq!((ts[4].x, ts[4].y), (120, 48));
    assert_eq!((ts[0].x, ts[0].y), (0, 0));
    let ms = s.measure(&ts);
    assert_eq!(size(&ms[6]), (36, 54));
    assert_eq!(size(&ms[5]), (56, 54));
    assert_eq!(size(&ms[4]), (126, 54));
    assert_eq!(size(&ms[3]), (132, 180));
    assert_eq!(size(&ms[2]), (306, 406));
    assert_eq!(size(&ms[1]), (36, 38));
    assert_eq!(size(&ms[0]), (600, 412));
    let ib = ms[0].inner_box;
    assert_eq!((ib.x, ib.y, ib.w, ib.h), (3, 3, 594, 406));
    for m in &ms {
        assert_eq!(pos(m), (0, 0));
    }
}

#[test]
fn demo_arrangement() {
    let mut s = demo_set();
    s.update();
    let ts = s.text_sizes(&FixedWidthText);
    let mut ms = s.measure(&ts);
    s.arrange(&mut ms);
    assert_eq!(pos(&ms[0]), (0, 0));
    assert_eq!(pos(&ms[1]), (3, 187));
    assert_eq!(pos(&ms[2]), (291, 3));
    assert_eq!(pos(&ms[3]), (294, 6));
    assert_eq!(pos(&ms[4]), (297, 9));
    assert_eq!(pos(&ms[5]), (332, 69));
    assert_eq!(pos(&ms[6]), (342, 129));
    // sizes are untouched by arranging
    assert_eq!(size(&ms[3]), (132, 180));
}

#[test]
fn demo_render_ops() {
    let mut s = demo_set();
    s.update();
    let ts = s.text_sizes(&FixedWidthText);
    let mut ms = s.measure(&ts);
    s.arrange(&mut ms);
    let ops = s.render(None, &ms, &vec![0; 7]);
    assert_eq!(ops.len(), 10);
    assert_eq!(area(&ops[0]), (0, 0, 600, 412));
    assert!(ops[0].clip.is_none());
    assert_eq!(ops[0].kind, DrawKind::OutlineRect);
    assert_eq!(ops[0].color, red());
    assert_eq!(area(&ops[1]), (3, 187, 36, 38));
    assert_eq!(area(&ops[2]), (291, 3, 306, 406));
    assert!(ops[2].clip.is_none());
    let clip = ops[3].clip.unwrap();
    assert_eq!((clip.x, clip.y, clip.w, clip.h), (294, 6, 300, 400));
    assert_eq!(area(&ops[3]), (294, 6, 132, 180));
    assert_eq!(area(&ops[4]), (297, 9, 126, 54));
    assert_eq!(ops[4].kind, DrawKind::OutlineRect);
    assert_eq!(area(&ops[5]), (297, 9, 126, 54));
    assert_eq!(ops[5].kind, DrawKind::FillRect);
    assert_eq!(ops[5].color, yellow());
    assert_eq!(ops[7].color, orange());
    assert_eq!(area(&ops[8]), (342, 129, 36, 54));
    assert_eq!(ops[9].color, red());
    for op in &ops[3..] {
        let c = op.clip.unwrap();
        assert_eq!((c.x, c.y, c.w, c.h), (294, 6, 300, 400));
    }
}

#[test]
fn scrolled_body_moves_down_and_stays_clipped() {
    let mut s = demo_set();
    s.update();
    let ts = s.text_sizes(&FixedWidthText);
    let mut ms = s.measure(&ts);
    s.arrange(&mut ms);
    let mut scroll = vec![0; 7];
    scroll[2] = -25;
    let ops = s.render(Some(Vec2i::new(10, 20)), &ms, &scroll);
    // unclipped elements move by the offset
    assert_eq!(area(&ops[0]), (10, 20, 600, 412));
    assert_eq!(area(&ops[2]), (301, 23, 306, 406));
    // the scroll frame's clip box is its inner box at the offset
    let clip = ops[3].clip.unwrap();
    assert_eq!((clip.x, clip.y, clip.w, clip.h), (304, 26, 300, 400));
    // its body is shifted by the offset and the scroll offset
    assert_eq!(area(&ops[3]), (304, 1, 132, 180));
    assert_eq!(area(&ops[4]), (307, 4, 126, 54));
}

#[test]
fn set_without_sort_is_not_well_formed() {
    let mut s = ElementSet::empty();
    s.new_frame(Flex::row().build(), Style::default(), |s| {
        vec![s.new_label(String::from("x"), Font { size: 10 }, Style::default())]
    });
    assert!(!s.is_well_formed());
    s.sort();
    assert!(s.is_well_formed());
}

#[test]
fn empty_set_is_not_well_formed() {
    let s = ElementSet::empty();
    assert_eq!(s.len(), 0);
    assert!(!s.is_well_formed());
}

#[test]
fn stale_render_order_is_detected() {
    let mut s = ElementSet::empty();
    s.new_frame(Layout::Sequential, Style::default(), |s| {
        vec![s.new_label(String::from("x"), Font { size: 10 }, Style::default())]
    });
    s.sort();
    s.update();
    assert_eq!(s.render_order().clone(), vec![0, 1]);
    assert!(s.render_order_is_valid());
    // another label, added to nothing: the order is still that of the elements
    s.new_label(String::from("y"), Font { size: 10 }, Style::default());
    assert!(s.render_order_is_valid());
}

use amanita::layout::Layout;

#[test]
fn render_order_skips_unreachable_elements() {
    let mut s = ElementSet::empty();
    s.new_frame(Layout::Sequential, Style::default(), |s| {
        let a = s.new_label(String::from("a"), Font { size: 10 }, Style::default());
        let _orphan = s.new_label(String::from("b"), Font { size: 10 }, Style::default());
        vec![a]
    });
    s.sort();
    s.update_render_ordering();
    assert_eq!(s.render_order().clone(), vec![0, 1]);
    let ts = s.text_sizes(&FixedWidthText);
    let ms = s.measure(&ts);
    // the unreachable element keeps a zero measure
    assert_eq!(size(&ms[2]), (0, 0));
    assert_eq!(size(&ms[1]), (10, 10));
}

#[test]
fn process_frame_runs_all_steps() {
    let mut s = demo_set();
    let ts = s.text_sizes(&FixedWidthText);
    let ops = s.process_frame(None, &ts, &vec![0; 7]);
    assert_eq!(s.render_order().clone(), vec![0, 1, 2, 3, 4, 5, 6]);
    assert_eq!(ops.len(), 10);
    assert_eq!(area(&ops[2]), (291, 3, 306, 406));
    assert_eq!(area(&ops[9]), (342, 129, 36, 54));
    // a second frame keeps the render order and draws the same
    let again = s.process_frame(None, &ts, &vec![0; 7]);
    assert_eq!(again.len(), 10);
    assert_eq!(area(&again[4]), area(&ops[4]));
}

#[test]
fn without_scroll_frames_nothing_is_clipped() {
    let mut s = ElementSet::empty();
    s.new_frame(Flex::row().item_gap(2).build(), Style::default(), |s| {
        let a = s.new_label(String::from("ab"), Font { size: 10 }, Style::default());
        let inner = s.new_frame(Layout::Sequential, Style::default().padding(Padding::new_uniform(1)), |s| {
            vec![s.new_label(String::from("cde"), Font { size: 12 }, Style::default().background(red()))]
        });
        vec![a, inner]
    });
    s.sort();
    let ts = s.text_sizes(&FixedWidthText);
    let ops = s.process_frame(Some(Vec2i::new(100, 0)), &ts, &vec![0; 4]);
    assert_eq!(s.render_order().clone(), vec![0, 1, 2, 3]);
    assert_eq!(ops.len(), 5);
    for op in &ops {
        assert!(op.clip.is_none());
    }
    // root: 20 + 2 + 32 wide, 14 tall; row items centered across
    assert_eq!(area(&ops[0]), (100, 0, 54, 14));
    assert_eq!(area(&ops[1]), (100, 2, 20, 10));
    assert_eq!(area(&ops[2]), (122, 0, 32, 14));
    assert_eq!(area(&ops[3]), (123, 1, 30, 12));
    assert_eq!(ops[4].kind, DrawKind::FillRect);
}

#[test]
fn try_process_frame_matches_process_frame() {
    let mut a = demo_set();
    let ts = a.text_sizes(&FixedWidthText);
    let sc = vec![0, 0, 0, -20, 0, 0, 0];
    let ops = a.try_process_frame(Some(Vec2i::new(5, 7)), &ts, &sc).unwrap();
    let mut b = demo_set();
    let expected = b.process_frame(Some(Vec2i::new(5, 7)), &ts, &sc);
    assert_eq!(ops.len(), expected.len());
    for (x, y) in ops.iter().zip(expected.iter()) {
        assert_eq!(x.kind, y.kind);
        assert_eq!(area(x), area(y));
        assert_eq!(x.color, y.color);
        assert_eq!(x.clip.map(|c| (c.x, c.y, c.w, c.h)), y.clip.map(|c| (c.x, c.y, c.w, c.h)));
    }
    assert_eq!(a.render_order().clone(), b.render_order().clone());
}

#[test]
fn try_process_frame_checks_lengths_and_shape() {
    let mut s = demo_set();
    let ts = s.text_sizes(&FixedWidthText);
    assert!(s.try_process_frame(None, &ts, &vec![0; 6]).is_none());
    assert!(s.try_process_frame(None, &vec![Vec2i::zero(); 3], &vec![0; 7]).is_none());
    let mut empty = ElementSet::empty();
    assert!(empty.try_process_frame(None, &vec![], &vec![]).is_none());
}

#[test]
fn try_process_frame_refuses_a_grid() {
    let mut s = ElementSet::empty();
    s.new_frame(amanita::layout::Layout::Grid { gap_row: 1, gap_col: 1, rows: 1, cols: 1 }, Style::default(), |_| vec![]);
    assert!(s.is_well_formed());
    assert!(s.try_process_frame(None, &vec![Vec2i::zero()], &vec![0]).is_none());
    // the render order was computed all the same
    assert_eq!(s.render_order().clone(), vec![0]);
}

#[test]
fn try_process_frame_refuses_an_overflow() {
    let mut s = ElementSet::empty();
    s.new_frame(amanita::layout::Layout::Sequential, Style::default(), |s| {
        let a = s.new_label(String::from("a"), Font { size: 1 }, Style::default());
        let b = s.new_label(String::from("b"), Font { size: 1 }, Style::default());
        vec![a, b]
    });
    s.sort();
    let big = Vec2i::new(1, i32::MAX);
    assert!(s.try_process_frame(None, &vec![Vec2i::zero(), big, big], &vec![0; 3]).is_none());
    let ok = Vec2i::new(1, 1000);
    assert!(s.try_process_frame(None, &vec![Vec2i::zero(), ok, ok], &vec![0; 3]).is_some());
}

#[test]
fn try_process_frame_refuses_an_offset_that_overflows() {
    let mut s = demo_set();
    let ts = s.text_sizes(&FixedWidthText);
    assert!(s.try_process_frame(Some(Vec2i::new(i32::MAX, 0)), &ts, &vec![0; 7]).is_none());
}
