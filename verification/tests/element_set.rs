use amanita::element::ElementSet;
use amanita::layout::Layout;
use amanita::style::{Font, Style};
use amanita::tag::Tag;

fn label_text(s: &ElementSet, i: usize) -> String {
    match &s.get(i).tag {
        Tag::Label { text, .. } => text.clone(),
        _ => String::from("<frame>"),
    }
}

fn frame_with(s: &mut ElementSet, children: Vec<usize>) -> usize {
    s.new_frame(Layout::Sequential, Style::default(), move |_| children.clone())
}

#[test]
fn new_label_counts_up() {
    let mut s = ElementSet::empty();
    assert_eq!(s.new_label(String::from("x"), Font { size: 1 }, Style::default()), 0);
    assert_eq!(s.new_label(String::from("y"), Font { size: 1 }, Style::default()), 1);
    let l = s.new_label(String::from("z"), Font { size: 1 }, Style::default());
    assert_eq!(l, 2);
    assert_eq!(s.len(), 3);
    assert_eq!(s.get(2).index, 2);
    assert!(s.get(2).elements.is_empty());
    assert!(matches!(s.get(2).layout, Layout::Sequential));
}

#[test]
fn frames_keep_their_parts() {
    let mut s = ElementSet::empty();
    let f = s.new_frame(Layout::Sequential, Style::default().min_width(3), |_| vec![4, 5]);
    let g = s.new_scroll_frame(Style::default(), |_| 9);
    assert_eq!((f, g), (0, 1));
    assert_eq!(s.len(), 2);
    assert_eq!(s.get(0).index, 0);
    assert_eq!(s.get(0).elements, vec![4, 5]);
    assert_eq!(s.get(0).style.min_width, 3);
    assert!(matches!(s.get(0).tag, Tag::Frame));
    assert_eq!(s.get(1).elements, vec![9]);
    assert!(matches!(s.get(1).layout, Layout::Scroll));
}

#[test]
fn sort_puts_frames_before_their_contents() {
    let mut s = ElementSet::empty();
    s.new_frame(Layout::Sequential, Style::default(), |s| {
        let inner = s.new_frame(Layout::Sequential, Style::default(), |s| {
            vec![s.new_label(String::from("a"), Font { size: 1 }, Style::default())]
        });
        vec![inner, s.new_label(String::from("b"), Font { size: 1 }, Style::default())]
    });
    let before: Vec<usize> = (0..s.len()).map(|i| s.get(i).index).collect();
    assert_eq!(before, vec![2, 1, 3, 0]);
    s.sort();
    let idx: Vec<usize> = (0..s.len()).map(|i| s.get(i).index).collect();
    assert_eq!(idx, vec![0, 1, 2, 3]);
    assert_eq!(label_text(&s, 2), "a");
    assert_eq!(label_text(&s, 3), "b");
}

#[test]
fn labels_built_in_any_order_sort_to_their_indices() {
    let mut s = ElementSet::new(|s| {
        s.new_frame(Layout::Sequential, Style::default(), |s| {
            let a = s.new_label(String::from("a"), Font { size: 1 }, Style::default());
            let b = s.new_label(String::from("b"), Font { size: 1 }, Style::default());
            vec![b, a]
        })
    });
    s.sort();
    assert_eq!(label_text(&s, 1), "a");
    assert_eq!(label_text(&s, 2), "b");
    assert_eq!(s.root().elements, vec![2, 1]);
    s.update();
    // breadth-first: sub-elements in the order their frame lists them
    assert_eq!(s.render_order().clone(), vec![0, 2, 1]);
}

#[test]
fn deep_tree_render_order_is_level_by_level() {
    // 0 -> [1, 4]; 1 -> [2, 3]; 4 -> [5]
    let mut s = ElementSet::new(|s| {
        s.new_frame(Layout::Sequential, Style::default(), |s| {
            let f1 = s.new_frame(Layout::Sequential, Style::default(), |s| {
                let l2 = s.new_label(String::from("2"), Font { size: 1 }, Style::default());
                let l3 = s.new_label(String::from("3"), Font { size: 1 }, Style::default());
                vec![l2, l3]
            });
            let f4 = s.new_frame(Layout::Sequential, Style::default(), |s| {
                vec![s.new_label(String::from("5"), Font { size: 1 }, Style::default())]
            });
            vec![f1, f4]
        })
    });
    s.sort();
    assert!(s.is_well_formed());
    s.update_render_ordering();
    assert_eq!(s.render_order().clone(), vec![0, 1, 4, 2, 3, 5]);
    // each element listed once
    let mut seen = s.render_order().clone();
    seen.sort();
    seen.dedup();
    assert_eq!(seen.len(), 6);
}

#[test]
fn root_as_sub_element_is_not_well_formed() {
    let mut s = ElementSet::empty();
    s.new_label(String::from("root"), Font { size: 1 }, Style::default());
    frame_with(&mut s, vec![0]);
    assert!(!s.is_well_formed());
}

#[test]
fn sub_element_before_its_frame_is_laid_out() {
    // the root's closure makes a label first and then wraps it: 0 -> [2], 2 -> [1]
    let mut s = ElementSet::new(|s| {
        s.new_frame(Layout::Sequential, Style::default(), |s| {
            let a = s.new_label(String::from("a"), Font { size: 10 }, Style::default());
            vec![s.new_frame(Layout::Sequential, Style::default(), move |_| vec![a])]
        })
    });
    s.sort();
    assert_eq!(s.get(0).elements, vec![2]);
    assert_eq!(s.get(2).elements, vec![1]);
    assert!(s.is_well_formed());
    s.update_render_ordering();
    assert_eq!(s.render_order().clone(), vec![0, 2, 1]);
    let sizes = vec![
        amanita::vec2::Vec2i::zero(),
        amanita::vec2::Vec2i::new(10, 10),
        amanita::vec2::Vec2i::zero(),
    ];
    let ms = s.measure(&sizes);
    assert_eq!((ms[1].size.x, ms[1].size.y), (10, 10));
    assert_eq!((ms[2].size.x, ms[2].size.y), (10, 10));
    assert_eq!((ms[0].size.x, ms[0].size.y), (10, 10));
}

#[test]
fn shared_sub_element_is_walked_once_per_path() {
    // 0 -> [1, 2]; 2 -> [1]
    let mut s = ElementSet::new(|s| {
        s.new_frame(Layout::Sequential, Style::default(), |s| {
            let a = s.new_label(String::from("a"), Font { size: 1 }, Style::default());
            let f = s.new_frame(Layout::Sequential, Style::default(), move |_| vec![a]);
            vec![a, f]
        })
    });
    s.sort();
    assert_eq!(s.get(0).elements, vec![1, 2]);
    assert_eq!(s.get(2).elements, vec![1]);
    assert!(!s.is_well_formed());
    s.update_render_ordering();
    assert_eq!(s.render_order().clone(), vec![0, 1, 2, 1]);
    assert!(s.render_order_is_valid());
}

#[test]
fn sub_element_listed_twice_is_walked_twice() {
    let mut s = ElementSet::new(|s| {
        s.new_frame(Layout::Sequential, Style::default(), |s| {
            let a = s.new_label(String::from("a"), Font { size: 1 }, Style::default());
            vec![a, a]
        })
    });
    s.sort();
    assert!(!s.is_well_formed());
    s.update_render_ordering();
    assert_eq!(s.render_order().clone(), vec![0, 1, 1]);
}

#[test]
fn out_of_range_sub_element_is_not_well_formed() {
    let mut s = ElementSet::empty();
    frame_with(&mut s, vec![5]);
    assert!(!s.is_well_formed());
}

#[test]
fn unreachable_cycle_is_well_formed_and_not_listed() {
    let mut s = ElementSet::empty();
    frame_with(&mut s, vec![]);
    frame_with(&mut s, vec![2]);
    frame_with(&mut s, vec![1]);
    assert!(s.is_well_formed());
    s.update_render_ordering();
    assert_eq!(s.render_order().clone(), vec![0]);
}

#[test]
fn new_frame_lists_what_its_closure_returns() {
    let mut s = ElementSet::empty();
    let f = s.new_frame(Layout::Sequential, Style::default(), |s| {
        let a = s.new_label(String::from("a"), Font { size: 1 }, Style::default());
        let b = s.new_label(String::from("b"), Font { size: 1 }, Style::default());
        vec![b, a]
    });
    assert_eq!(f, 0);
    assert_eq!(s.len(), 3);
    assert_eq!(s.get(2).index, 0);
    assert_eq!(s.get(2).elements, vec![2, 1]);
}

#[test]
fn new_scroll_frame_wraps_the_body() {
    let mut s = ElementSet::empty();
    let f = s.new_scroll_frame(Style::default(), |s| s.new_label(String::from("a"), Font { size: 1 }, Style::default()));
    assert_eq!(f, 0);
    assert_eq!(s.get(1).elements, vec![1]);
    assert!(matches!(s.get(1).layout, Layout::Scroll));
}

#[test]
fn text_to_measure_gives_label_text_and_font_size() {
    let mut s = ElementSet::empty();
    s.new_label(String::from("hello"), Font { size: 17 }, Style::default());
    frame_with(&mut s, vec![]);
    assert_eq!(s.text_to_measure(0), Some(("hello", 17)));
    assert_eq!(s.text_to_measure(1), None);
}
