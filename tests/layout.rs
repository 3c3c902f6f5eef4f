use engine::background::{Background, BackgroundType};
use engine::buffer::{frame_buffer, BufferWord};
use engine::color::{Color, ONE_BITS};
use engine::coord::{Coord, CoordValue, PERC_ONE};
use engine::element::{DrawRecord, Element, ElementTree, Style, WindowSize};
use engine::position::Position;

fn restyle(tree: &mut ElementTree, e: Element, f: impl FnOnce(&mut Style)) {
    let mut s = *e.style(tree);
    f(&mut s);
    e.set_style(tree, s);
}

fn ws(width: u32, height: u32) -> WindowSize {
    WindowSize { width, height }
}

fn red() -> Color {
    Color::new(ONE_BITS, 0, 0, ONE_BITS)
}

/// A root that fills the viewport.
fn full_root(tree: &mut ElementTree) -> Element {
    let root = tree.create_element();
    restyle(tree, root, |s| {
        s.width.set_perc(PERC_ONE as i32);
        s.height.set_perc(PERC_ONE as i32);
    });
    root
}

#[test]
fn coord_keeps_what_was_stored() {
    let mut c = Coord::default();
    assert_eq!(c.get(), CoordValue::Auto);
    c.set_px(-5);
    assert_eq!(c.get(), CoordValue::Px(-5));
    c.set_perc(5000);
    assert_eq!(c.get(), CoordValue::Perc(5000));
    c.set_px(i32::MIN);
    assert_eq!(c.get(), CoordValue::Px(i32::MIN));
    c.set_perc(i32::MAX);
    assert_eq!(c.get(), CoordValue::Perc(i32::MAX));
    c.set_perc(-1);
    assert_eq!(c.get(), CoordValue::Perc(-1));
    c.set_auto();
    assert_eq!(c.get(), CoordValue::Auto);
}

#[test]
fn position_toggles() {
    let mut p = Position::default();
    assert!(p.is_relative());
    assert!(!p.is_absolute());
    p.set_absolute();
    assert!(p.is_absolute());
    assert!(!p.is_relative());
    p.set_relative();
    assert!(p.is_relative());
}

#[test]
fn background_keeps_what_was_stored() {
    let mut b = Background::default();
    assert_eq!(b.get(), BackgroundType::Empty);
    b.set(BackgroundType::Solid(red()));
    assert_eq!(b.get(), BackgroundType::Solid(red()));
    b.set(BackgroundType::Empty);
    assert_eq!(b.get(), BackgroundType::Empty);
}

#[test]
fn default_style_is_automatic_and_relative() {
    let s = Style::default();
    assert_eq!(s.width.get(), CoordValue::Auto);
    assert_eq!(s.height.get(), CoordValue::Auto);
    assert_eq!(s.x.get(), CoordValue::Auto);
    assert_eq!(s.y.get(), CoordValue::Auto);
    assert_eq!(s.background.get(), BackgroundType::Empty);
    assert!(s.position.is_relative());
}

#[test]
fn alpha_above_zero_is_visible() {
    let with_alpha = |a: f32| Color::new(0, 0, 0, a.to_bits());
    assert!(!with_alpha(0.0).is_visible());
    assert!(!with_alpha(-0.0).is_visible());
    assert!(!with_alpha(-0.5).is_visible());
    assert!(!with_alpha(f32::NAN).is_visible());
    assert!(with_alpha(1.0).is_visible());
    assert!(with_alpha(0.5).is_visible());
    assert!(with_alpha(f32::MIN_POSITIVE).is_visible());
    assert!(with_alpha(f32::from_bits(1)).is_visible());
    assert!(with_alpha(f32::INFINITY).is_visible());
    assert!(!with_alpha(f32::NEG_INFINITY).is_visible());
    assert_eq!(red().channels(), [ONE_BITS, 0, 0, ONE_BITS]);
}

#[test]
fn resolving_twice_gives_the_same_geometry() {
    let mut tree = ElementTree::new();
    let root = full_root(&mut tree);
    let child = root.create_child(&mut tree);
    restyle(&mut tree, child, |s| {
        s.width.set_perc(3333);
        s.x.set_perc(2500);
        s.y.set_px(7);
    });
    let v = ws(1024, 768);
    let first = (child.get_width(&tree, v), child.get_height(&tree, v), child.get_x(&tree, v), child.get_y(&tree, v));
    let second = (child.get_width(&tree, v), child.get_height(&tree, v), child.get_x(&tree, v), child.get_y(&tree, v));
    assert_eq!(first, second);
    assert_eq!(first.0, Some(341));
    assert_eq!(first.2, Some(256));
    assert_eq!(first.3, Some(7));
}

#[test]
fn percentage_composes_with_parent() {
    let mut tree = ElementTree::new();
    let root = full_root(&mut tree);
    let child = root.create_child(&mut tree);
    restyle(&mut tree, child, |s| s.width.set_perc(5000));
    assert_eq!(root.get_width(&tree, ws(800, 600)), Some(800));
    assert_eq!(root.get_height(&tree, ws(800, 600)), Some(600));
    assert_eq!(child.get_width(&tree, ws(800, 600)), Some(400));
}

#[test]
fn absolute_pixel_offset_ignores_parent() {
    let mut tree = ElementTree::new();
    let root = full_root(&mut tree);
    restyle(&mut tree, root, |s| {
        s.x.set_px(300);
        s.y.set_px(400);
    });
    let child = root.create_child(&mut tree);
    restyle(&mut tree, child, |s| {
        s.position.set_absolute();
        s.x.set_px(10);
        s.y.set_px(20);
    });
    assert_eq!(child.get_x(&tree, ws(800, 600)), Some(10));
    assert_eq!(child.get_y(&tree, ws(800, 600)), Some(20));
}

#[test]
fn relative_pixel_offset_adds_parent() {
    let mut tree = ElementTree::new();
    let root = full_root(&mut tree);
    restyle(&mut tree, root, |s| {
        s.x.set_px(100);
        s.y.set_px(40);
    });
    let child = root.create_child(&mut tree);
    restyle(&mut tree, child, |s| {
        s.x.set_px(5);
        s.y.set_px(-3);
    });
    assert_eq!(root.get_x(&tree, ws(800, 600)), Some(100));
    assert_eq!(child.get_x(&tree, ws(800, 600)), Some(105));
    assert_eq!(child.get_y(&tree, ws(800, 600)), Some(37));
}

#[test]
fn auto_width_sums_children() {
    let mut tree = ElementTree::new();
    let parent = tree.create_element();
    let a = parent.create_child(&mut tree);
    let b = parent.create_child(&mut tree);
    restyle(&mut tree, a, |s| s.width.set_px(30));
    restyle(&mut tree, b, |s| s.width.set_px(20));
    assert_eq!(parent.get_content_width(&tree), Some(50));
    assert_eq!(parent.get_width(&tree, ws(800, 600)), Some(50));
    assert_eq!(parent.get_height(&tree, ws(800, 600)), Some(0));
}

#[test]
fn auto_height_counts_fractions_as_nothing() {
    let mut tree = ElementTree::new();
    let parent = tree.create_element();
    let a = parent.create_child(&mut tree);
    let b = parent.create_child(&mut tree);
    restyle(&mut tree, a, |s| s.height.set_px(12));
    restyle(&mut tree, b, |s| s.height.set_perc(5000));
    assert_eq!(parent.get_content_height(&tree), Some(12));
    assert_eq!(parent.get_height(&tree, ws(800, 600)), Some(12));
}

#[test]
fn auto_child_contributes_its_own_content() {
    let mut tree = ElementTree::new();
    let parent = tree.create_element();
    let a = parent.create_child(&mut tree);
    let b = parent.create_child(&mut tree);
    restyle(&mut tree, a, |s| s.width.set_px(10));
    let b1 = b.create_child(&mut tree);
    let b2 = b.create_child(&mut tree);
    restyle(&mut tree, b1, |s| s.width.set_px(7));
    restyle(&mut tree, b2, |s| s.width.set_px(8));
    assert_eq!(b.get_width(&tree, ws(800, 600)), Some(15));
    assert_eq!(parent.get_width(&tree, ws(800, 600)), Some(25));
}

#[test]
fn fraction_offset_scales_parent_size_and_adds_parent_offset() {
    let mut tree = ElementTree::new();
    let root = tree.create_element();
    restyle(&mut tree, root, |s| {
        s.width.set_px(200);
        s.height.set_px(100);
        s.x.set_px(10);
        s.y.set_px(20);
    });
    let child = root.create_child(&mut tree);
    restyle(&mut tree, child, |s| {
        s.x.set_perc(5000);
        s.y.set_perc(2500);
    });
    assert_eq!(child.get_x(&tree, ws(800, 600)), Some(110));
    assert_eq!(child.get_y(&tree, ws(800, 600)), Some(45));
}

#[test]
fn root_fractions_scale_the_viewport() {
    let mut tree = ElementTree::new();
    let root = tree.create_element();
    restyle(&mut tree, root, |s| {
        s.x.set_perc(1000);
        s.y.set_perc(5000);
        s.width.set_perc(-1);
        s.height.set_perc(1);
    });
    assert_eq!(root.get_x(&tree, ws(800, 600)), Some(80));
    assert_eq!(root.get_y(&tree, ws(800, 600)), Some(300));
    // rounding goes down, also below zero
    assert_eq!(root.get_width(&tree, ws(1, 1)), Some(-1));
    assert_eq!(root.get_height(&tree, ws(1, 1)), Some(0));
}

#[test]
fn auto_offset_follows_parent() {
    let mut tree = ElementTree::new();
    let root = tree.create_element();
    assert_eq!(root.get_x(&tree, ws(800, 600)), Some(0));
    assert_eq!(root.get_y(&tree, ws(800, 600)), Some(0));
    restyle(&mut tree, root, |s| {
        s.x.set_px(33);
        s.y.set_px(44);
    });
    let child = root.create_child(&mut tree);
    assert_eq!(child.get_x(&tree, ws(800, 600)), Some(33));
    assert_eq!(child.get_y(&tree, ws(800, 600)), Some(44));
}

#[test]
fn unresolvable_geometry_is_none() {
    let mut tree = ElementTree::new();
    let root = tree.create_element();
    restyle(&mut tree, root, |s| s.width.set_px(i32::MAX));
    let a = root.create_child(&mut tree);
    restyle(&mut tree, a, |s| s.width.set_perc(i32::MAX));
    let b = a.create_child(&mut tree);
    restyle(&mut tree, b, |s| {
        s.width.set_perc(i32::MAX);
        s.background.set(BackgroundType::Solid(red()));
    });
    assert_eq!(a.get_width(&tree, ws(1, 1)), Some(461_168_601_413_242));
    assert_eq!(b.get_width(&tree, ws(1, 1)), None);
    assert_eq!(root.get_data(&tree, ws(1, 1)), None);
}

#[test]
fn child_without_back_reference_resolves_as_root() {
    let mut tree = ElementTree::new();
    let root = tree.create_element();
    restyle(&mut tree, root, |s| s.width.set_px(800));
    let orphan = tree.create_element();
    restyle(&mut tree, orphan, |s| s.width.set_perc(5000));
    assert!(root.add_child(&mut tree, orphan));
    assert_eq!(orphan.get_parent(&tree), None);
    assert_eq!(orphan.get_width(&tree, ws(1000, 500)), Some(500));
    assert_eq!(root.get_content_width(&tree), Some(0));
    assert!(orphan.set_parent(&mut tree, Some(root)));
    assert_eq!(orphan.get_parent(&tree), Some(root));
    assert_eq!(orphan.get_width(&tree, ws(1000, 500)), Some(400));
    assert!(orphan.set_parent(&mut tree, None));
    assert_eq!(orphan.get_parent(&tree), None);
}

#[test]
fn adopting_an_older_element_is_allowed() {
    let mut tree = ElementTree::new();
    let a = tree.create_element();
    let b = tree.create_element();
    restyle(&mut tree, b, |s| s.width.set_px(300));
    restyle(&mut tree, a, |s| s.width.set_perc(5000));
    assert!(b.add_child(&mut tree, a));
    assert_eq!(a.get_parent(&tree), None);
    assert_eq!(a.get_width(&tree, ws(1000, 500)), Some(500));
    assert!(a.set_parent(&mut tree, Some(b)));
    assert_eq!(a.get_parent(&tree), Some(b));
    assert_eq!(a.get_width(&tree, ws(1000, 500)), Some(150));
    assert_eq!(tree.len(), 2);
}

#[test]
fn adoption_that_closes_a_cycle_is_refused() {
    let mut tree = ElementTree::new();
    let root = tree.create_element();
    let child = root.create_child(&mut tree);
    let grandchild = child.create_child(&mut tree);
    assert!(!root.add_child(&mut tree, root));
    assert!(!grandchild.add_child(&mut tree, root));
    assert!(!child.add_child(&mut tree, root));
    // a second link to an element elsewhere in the tree closes no cycle
    assert!(root.add_child(&mut tree, grandchild));
    assert_eq!(root.get_content_width(&tree), Some(0));
}

#[test]
fn parent_link_that_closes_a_cycle_is_refused() {
    let mut tree = ElementTree::new();
    let root = tree.create_element();
    let child = root.create_child(&mut tree);
    let grandchild = child.create_child(&mut tree);
    assert!(!root.set_parent(&mut tree, Some(root)));
    assert!(!root.set_parent(&mut tree, Some(grandchild)));
    assert!(!child.set_parent(&mut tree, Some(grandchild)));
    assert_eq!(root.get_parent(&tree), None);
    assert_eq!(child.get_parent(&tree), Some(root));
    assert!(grandchild.set_parent(&mut tree, Some(root)));
    assert_eq!(grandchild.get_parent(&tree), Some(root));
    assert!(root.set_parent(&mut tree, None));
}

#[test]
fn named_colors() {
    let one = 1.0f32.to_bits();
    let half = 0.5f32.to_bits();
    assert_eq!(Color::transparent(), Color::new(0, 0, 0, 0));
    assert!(!Color::transparent().is_visible());
    assert_eq!(Color::black(), Color::new(0, 0, 0, one));
    assert_eq!(Color::white(), Color::new(one, one, one, one));
    assert_eq!(Color::gray(), Color::new(half, half, half, one));
    assert_eq!(Color::red(), Color::new(one, 0, 0, one));
    assert_eq!(Color::green(), Color::new(0, one, 0, one));
    assert_eq!(Color::blue(), Color::new(0, 0, one, one));
    assert_eq!(Color::yellow(), Color::new(one, one, 0, one));
}

#[test]
fn create_child_links_both_ways() {
    let mut tree = ElementTree::new();
    let root = tree.create_element();
    let child = root.create_child(&mut tree);
    assert_eq!(child.get_parent(&tree), Some(root));
    assert_eq!(root.get_parent(&tree), None);
    assert_eq!(tree.len(), 2);
    assert_eq!(root.remove_child(&mut tree, 0), Some(child));
}

#[test]
fn transparent_background_draws_nothing() {
    let mut tree = ElementTree::new();
    let root = full_root(&mut tree);
    restyle(&mut tree, root, |s| s.background.set(BackgroundType::Solid(Color::new(ONE_BITS, ONE_BITS, ONE_BITS, 0))));
    assert_eq!(root.get_data(&tree, ws(800, 600)), Some(vec![]));
    restyle(&mut tree, root, |s| s.background.set(BackgroundType::Solid(Color::new(ONE_BITS, ONE_BITS, ONE_BITS, 0.25f32.to_bits()))));
    let data = root.get_data(&tree, ws(800, 600)).unwrap();
    assert_eq!(data.len(), 1);
    let words = frame_buffer(&data);
    assert_eq!(words.len(), 9);
    assert_eq!(words[0], BufferWord::Tag);
    assert_eq!(words[8], BufferWord::Channel(0.25f32.to_bits()));
}

#[test]
fn hidden_parent_still_visits_children() {
    let mut tree = ElementTree::new();
    let root = full_root(&mut tree);
    let child = root.create_child(&mut tree);
    restyle(&mut tree, child, |s| {
        s.width.set_px(5);
        s.height.set_px(6);
        s.background.set(BackgroundType::Solid(red()));
    });
    let data = root.get_data(&tree, ws(800, 600)).unwrap();
    assert_eq!(data, vec![DrawRecord { x_min: 0, x_max: 5, y_min: 0, y_max: 6, color: red() }]);
}

#[test]
fn empty_frame_is_padded() {
    let mut tree = ElementTree::new();
    let root = full_root(&mut tree);
    root.create_child(&mut tree);
    let data = root.get_data(&tree, ws(800, 600)).unwrap();
    assert!(data.is_empty());
    assert_eq!(frame_buffer(&data), vec![BufferWord::Zero; 4]);
}

#[test]
fn removed_subtree_is_not_drawn() {
    let mut tree = ElementTree::new();
    let root = full_root(&mut tree);
    let keep = root.create_child(&mut tree);
    let gone = root.create_child(&mut tree);
    let below = gone.create_child(&mut tree);
    for e in [keep, gone, below] {
        restyle(&mut tree, e, |s| {
            s.width.set_px(10);
            s.height.set_px(10);
            s.background.set(BackgroundType::Solid(red()));
        });
    }
    assert_eq!(root.get_data(&tree, ws(800, 600)).unwrap().len(), 3);
    assert_eq!(root.remove_child(&mut tree, 5), None);
    assert_eq!(root.remove_child(&mut tree, 1), Some(gone));
    assert_eq!(root.get_data(&tree, ws(800, 600)).unwrap().len(), 1);
    assert_eq!(root.get_content_width(&tree), Some(10));
}

#[test]
fn end_to_end_single_red_rectangle() {
    let mut tree = ElementTree::new();
    let root = full_root(&mut tree);
    let a = root.create_child(&mut tree);
    restyle(&mut tree, a, |s| {
        s.width.set_px(100);
        s.height.set_px(50);
        s.x.set_px(0);
        s.y.set_px(0);
        s.position.set_relative();
        s.background.set(BackgroundType::Solid(red()));
    });
    let data = root.get_data(&tree, ws(1000, 500)).unwrap();
    assert_eq!(
        frame_buffer(&data),
        vec![
            BufferWord::Tag,
            BufferWord::Length(0),
            BufferWord::Length(100),
            BufferWord::Length(0),
            BufferWord::Length(50),
            BufferWord::Channel(1.0f32.to_bits()),
            BufferWord::Channel(0.0f32.to_bits()),
            BufferWord::Channel(0.0f32.to_bits()),
            BufferWord::Channel(1.0f32.to_bits()),
        ]
    );
}

#[test]
fn records_come_in_pre_order() {
    let mut tree = ElementTree::new();
    let root = tree.create_element();
    restyle(&mut tree, root, |s| {
        s.width.set_px(100);
        s.height.set_px(100);
        s.background.set(BackgroundType::Solid(red()));
    });
    let a = root.create_child(&mut tree);
    let a1 = a.create_child(&mut tree);
    let b = root.create_child(&mut tree);
    let paint = |tree: &mut ElementTree, e: Element, x: i32| {
        restyle(tree, e, |s| {
            s.x.set_px(x);
            s.width.set_px(1);
            s.height.set_px(1);
            s.background.set(BackgroundType::Solid(red()));
        })
    };
    paint(&mut tree, a, 1);
    paint(&mut tree, a1, 2);
    paint(&mut tree, b, 4);
    let xs: Vec<i64> = root.get_data(&tree, ws(10, 10)).unwrap().iter().map(|r| r.x_min).collect();
    assert_eq!(xs, vec![0, 1, 3, 4]);
    let words = frame_buffer(&root.get_data(&tree, ws(10, 10)).unwrap());
    assert_eq!(words.len(), 36);
    assert_eq!(words[9], BufferWord::Tag);
    assert_eq!(words[10], BufferWord::Length(1));
    assert_eq!(words[11], BufferWord::Length(2));
}

#[test]
fn detached_subtree_no_longer_counts() {
    let mut tree = ElementTree::new();
    let root = full_root(&mut tree);
    let keep = root.create_child(&mut tree);
    let gone = root.create_child(&mut tree);
    let below = gone.create_child(&mut tree);
    restyle(&mut tree, keep, |s| {
        s.width.set_px(10);
        s.height.set_px(10);
        s.background.set(BackgroundType::Solid(red()));
    });
    assert_eq!(root.remove_child(&mut tree, 1), Some(gone));
    let before = root.get_data(&tree, ws(800, 600));
    for e in [gone, below] {
        restyle(&mut tree, e, |s| {
            s.width.set_px(77);
            s.height.set_px(77);
            s.background.set(BackgroundType::Solid(Color::blue()));
        });
    }
    assert_eq!(root.get_data(&tree, ws(800, 600)), before);
    assert_eq!(root.get_content_width(&tree), Some(10));
    assert_eq!(before.unwrap().len(), 1);
}
