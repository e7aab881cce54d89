use tiling_layout::geometry::{FocusDirection, Point, Rectangle};
use tiling_layout::layout::{Output, TilingLayout};
use tiling_layout::queries::FocusTarget;
use tiling_layout::window::Window;

fn area(w: i32, h: i32) -> Rectangle {
    Rectangle::from_loc_and_size((0, 0), (w, h))
}

fn screen(id: u64, w: i32, h: i32) -> Output {
    Output { id, geometry: area(w, h), usable: area(w, h) }
}

fn lay_out_again(layout: &mut TilingLayout, out: &Output, w: i32, h: i32) -> Output {
    let changed = screen(out.id, w, h);
    layout.map_output(&changed, Point::new(0, 0));
    layout.refresh(&vec![], &mut vec![]);
    changed
}

fn focused(target: Option<FocusTarget>) -> Option<u64> {
    match target {
        Some(FocusTarget::Window(w)) => Some(w),
        _ => None,
    }
}

/// 1 on the left, 2 above 3 on the right.
fn three_windows() -> (TilingLayout, Output, Vec<Window>) {
    let mut layout = TilingLayout::new();
    let out = screen(1, 1000, 800);
    layout.map_output(&out, Point::new(0, 0));
    let mut a = Window::new(1);
    let mut b = Window::new(2);
    let mut c = Window::new(3);
    layout.map(&mut a, &out, &vec![], &vec![], &mut vec![]);
    layout.map(&mut b, &out, &vec![1], &vec![], &mut vec![]);
    layout.map(&mut c, &out, &vec![2, 1], &vec![], &mut vec![]);
    let out = lay_out_again(&mut layout, &out, 1200, 800);
    (layout, out, vec![a, b, c])
}

#[test]
fn out_of_a_single_window_leads_nowhere() {
    let mut layout = TilingLayout::new();
    let out = screen(1, 1000, 800);
    layout.map_output(&out, Point::new(0, 0));
    let mut a = Window::new(1);
    layout.map(&mut a, &out, &vec![], &vec![], &mut vec![]);
    assert!(layout.next_focus(FocusDirection::Out, &out, &vec![1], false).is_none());
    assert!(layout.next_focus(FocusDirection::Left, &out, &vec![1], false).is_none());
    assert!(layout.next_focus(FocusDirection::Right, &out, &vec![1], false).is_none());
    assert!(layout.next_focus(FocusDirection::Up, &out, &vec![1], false).is_none());
    assert!(layout.next_focus(FocusDirection::Down, &out, &vec![1], false).is_none());
}

#[test]
fn no_focused_window_no_target() {
    let (layout, out, _) = three_windows();
    assert!(layout.next_focus(FocusDirection::Right, &out, &vec![], false).is_none());
    assert!(layout.next_focus(FocusDirection::Right, &out, &vec![8, 9], false).is_none());
    assert!(layout.next_focus(FocusDirection::Out, &out, &vec![], false).is_none());
    assert_eq!(layout.last_active(&out, &vec![8, 9]), None);
}

#[test]
fn last_active_is_the_first_tiled_window_of_the_stack() {
    let (layout, out, _) = three_windows();
    assert_eq!(layout.last_active(&out, &vec![3, 1]), Some(3));
    assert_eq!(layout.last_active(&out, &vec![9, 2, 1]), Some(2));
}

#[test]
fn a_window_that_handles_focus_itself_gets_no_target() {
    let (layout, out, _) = three_windows();
    assert!(layout.next_focus(FocusDirection::Right, &out, &vec![1], true).is_none());
    assert!(layout.next_focus(FocusDirection::Out, &out, &vec![1], true).is_none());
}

#[test]
fn neighbours_side_by_side() {
    let mut layout = TilingLayout::new();
    let out = screen(1, 1000, 800);
    layout.map_output(&out, Point::new(0, 0));
    let mut a = Window::new(1);
    let mut b = Window::new(2);
    layout.map(&mut a, &out, &vec![], &vec![], &mut vec![]);
    layout.map(&mut b, &out, &vec![1], &vec![], &mut vec![]);
    assert_eq!(focused(layout.next_focus(FocusDirection::Right, &out, &vec![1], false)), Some(2));
    assert_eq!(focused(layout.next_focus(FocusDirection::Left, &out, &vec![2], false)), Some(1));
    assert!(layout.next_focus(FocusDirection::Left, &out, &vec![1], false).is_none());
    assert!(layout.next_focus(FocusDirection::Right, &out, &vec![2], false).is_none());
    assert!(layout.next_focus(FocusDirection::Up, &out, &vec![1], false).is_none());
    assert!(layout.next_focus(FocusDirection::Down, &out, &vec![2], false).is_none());
}

#[test]
fn the_walk_goes_up_to_the_first_group_with_a_neighbour() {
    let (layout, out, _) = three_windows();
    // 3 has no neighbour to the left in its own group, but the group has one.
    assert_eq!(focused(layout.next_focus(FocusDirection::Left, &out, &vec![3], false)), Some(1));
    assert_eq!(focused(layout.next_focus(FocusDirection::Left, &out, &vec![2], false)), Some(1));
    assert_eq!(focused(layout.next_focus(FocusDirection::Down, &out, &vec![2], false)), Some(3));
    assert_eq!(focused(layout.next_focus(FocusDirection::Up, &out, &vec![3], false)), Some(2));
    assert!(layout.next_focus(FocusDirection::Up, &out, &vec![2], false).is_none());
    assert!(layout.next_focus(FocusDirection::Down, &out, &vec![3], false).is_none());
    assert!(layout.next_focus(FocusDirection::Right, &out, &vec![2], false).is_none());
    assert!(layout.next_focus(FocusDirection::Right, &out, &vec![3], false).is_none());
}

#[test]
fn across_the_axis_the_nearest_child_is_taken() {
    let (layout, out, _) = three_windows();
    // 2 and 3 are equally far from the middle of the right edge of 1: the
    // first of them wins.
    assert_eq!(focused(layout.next_focus(FocusDirection::Right, &out, &vec![1], false)), Some(2));
}

#[test]
fn the_nearer_child_wins() {
    // 1 above, then 2; beside 2 comes 3, and beside 3 comes 4, so that the
    // lower half holds 2 | (3 | 4) and the upper half only 1.
    let mut layout = TilingLayout::new();
    let out = screen(1, 800, 1000);
    layout.map_output(&out, Point::new(0, 0));
    let mut a = Window::new(1);
    let mut b = Window::new(2);
    let mut c = Window::new(3);
    layout.map(&mut a, &out, &vec![], &vec![], &mut vec![]);
    layout.map(&mut b, &out, &vec![1], &vec![], &mut vec![]);
    layout.map(&mut c, &out, &vec![2], &vec![], &mut vec![]);
    let out = lay_out_again(&mut layout, &out, 800, 1200);
    assert_eq!(layout.element_geometry(&a), Some(Rectangle::from_loc_and_size((0, 0), (800, 600))));
    assert_eq!(layout.element_geometry(&b), Some(Rectangle::from_loc_and_size((0, 600), (400, 600))));
    assert_eq!(layout.element_geometry(&c), Some(Rectangle::from_loc_and_size((400, 600), (400, 600))));
    // Going down from 1, distances are taken to the far end of the upper
    // edge of each candidate: (400, 600) for 2 and (800, 600) for 3, from
    // the middle of the lower edge of 1 at (400, 600).
    assert_eq!(focused(layout.next_focus(FocusDirection::Down, &out, &vec![1], false)), Some(2));
    assert_eq!(focused(layout.next_focus(FocusDirection::Up, &out, &vec![3], false)), Some(1));
    assert_eq!(focused(layout.next_focus(FocusDirection::Up, &out, &vec![2], false)), Some(1));
    assert_eq!(focused(layout.next_focus(FocusDirection::Right, &out, &vec![2], false)), Some(3));
}

#[test]
fn along_the_axis_the_near_end_is_taken() {
    // (1 | 2) | 3: going left from 3 enters the group at its last child.
    let mut layout = TilingLayout::new();
    let out = screen(1, 1000, 800);
    layout.map_output(&out, Point::new(0, 0));
    let mut a = Window::new(1);
    let mut b = Window::new(2);
    let mut c = Window::new(3);
    layout.map(&mut a, &out, &vec![], &vec![], &mut vec![]);
    layout.map(&mut b, &out, &vec![1], &vec![], &mut vec![]);
    layout.map(&mut c, &out, &vec![], &vec![], &mut vec![]);
    assert_eq!(focused(layout.next_focus(FocusDirection::Left, &out, &vec![3], false)), Some(2));
    assert_eq!(focused(layout.next_focus(FocusDirection::Right, &out, &vec![2], false)), Some(3));
    assert_eq!(focused(layout.next_focus(FocusDirection::Right, &out, &vec![1], false)), Some(2));
    // Going left from below 3 enters the group of 1 and 2 at its last child.
    let mut d = Window::new(4);
    layout.map(&mut d, &out, &vec![3], &vec![], &mut vec![]);
    let out = lay_out_again(&mut layout, &out, 1600, 400);
    assert_eq!(focused(layout.next_focus(FocusDirection::Right, &out, &vec![2], false)), Some(3));
    assert_eq!(focused(layout.next_focus(FocusDirection::Left, &out, &vec![4], false)), Some(2));
}

#[test]
fn going_forward_enters_a_group_at_its_first_child() {
    // 1 | (2 | 3) on a wide output.
    let mut layout = TilingLayout::new();
    let out = screen(1, 1000, 200);
    layout.map_output(&out, Point::new(0, 0));
    let mut a = Window::new(1);
    let mut b = Window::new(2);
    let mut c = Window::new(3);
    layout.map(&mut a, &out, &vec![], &vec![], &mut vec![]);
    layout.map(&mut b, &out, &vec![1], &vec![], &mut vec![]);
    layout.map(&mut c, &out, &vec![2], &vec![], &mut vec![]);
    let out = lay_out_again(&mut layout, &out, 1200, 200);
    assert_eq!(layout.element_geometry(&b), Some(Rectangle::from_loc_and_size((600, 0), (300, 200))));
    assert_eq!(layout.element_geometry(&c), Some(Rectangle::from_loc_and_size((900, 0), (300, 200))));
    assert_eq!(focused(layout.next_focus(FocusDirection::Right, &out, &vec![1], false)), Some(2));
    assert_eq!(focused(layout.next_focus(FocusDirection::Right, &out, &vec![2], false)), Some(3));
    assert_eq!(focused(layout.next_focus(FocusDirection::Left, &out, &vec![3], false)), Some(2));
    assert_eq!(focused(layout.next_focus(FocusDirection::Left, &out, &vec![2], false)), Some(1));
    assert!(layout.next_focus(FocusDirection::Right, &out, &vec![3], false).is_none());
}

#[test]
fn out_leads_to_the_group_around_the_window() {
    let (mut layout, out, mut windows) = three_windows();
    let target = layout.next_focus(FocusDirection::Out, &out, &vec![3], false);
    let group = match target {
        Some(FocusTarget::Group(group)) => group,
        other => panic!("expected a group, got {:?}", other),
    };
    assert_eq!(group.output, 1);
    let tree = layout.tree(&out).unwrap();
    assert!(tree.get(&group.node).unwrap().is_group());
    assert_eq!(tree.get(&group.node).unwrap().marker(), group.alive);
    assert_eq!(tree.children(&group.node).len(), 2);
    assert!(layout.group_alive(&group));
    // The group of 2 and 3 goes when 3 goes.
    let mut c = windows.pop().unwrap();
    assert!(layout.unmap(&mut c, &vec![], &mut vec![]).0);
    assert!(!layout.group_alive(&group));
    // The group around 1 is the root, and still there.
    let root = match layout.next_focus(FocusDirection::Out, &out, &vec![1], false) {
        Some(FocusTarget::Group(group)) => group,
        other => panic!("expected a group, got {:?}", other),
    };
    assert!(layout.group_alive(&root));
    assert!(root.alive != group.alive);
}

#[test]
fn a_group_on_another_output_is_not_alive() {
    let (layout, out, _) = three_windows();
    let group = match layout.next_focus(FocusDirection::Out, &out, &vec![1], false) {
        Some(FocusTarget::Group(group)) => group,
        other => panic!("expected a group, got {:?}", other),
    };
    let mut moved = group;
    moved.output = 7;
    assert!(!layout.group_alive(&moved));
}
