use tiling_layout::data::Data;
use tiling_layout::geometry::{Orientation, Point, Rectangle, Size};
use tiling_layout::layout::{Output, TilingLayout};
use tiling_layout::tree::PartitionTree;
use tiling_layout::window::{Configure, Window, WindowState};

fn rect(x: i32, y: i32, w: i32, h: i32) -> Rectangle {
    Rectangle::from_loc_and_size((x, y), (w, h))
}

fn output(id: u64, w: i32, h: i32) -> Output {
    Output { id, geometry: rect(0, 0, w, h), usable: rect(0, 0, w, h) }
}

fn request(window: u64, w: i32, h: i32) -> Configure {
    Configure { window, size: Size { w, h } }
}

fn describe_node(tree: &PartitionTree, id: &id_tree::NodeId) -> String {
    let data = tree.get(id).expect("node is in the tree");
    let g = data.geometry();
    let place = format!("{},{},{},{}", g.loc.x, g.loc.y, g.size.w, g.size.h);
    match data {
        Data::Mapped { mapped, .. } => format!("{}:{}", mapped, place),
        Data::Group { orientation, sizes, .. } => {
            let axis = match orientation {
                Orientation::Horizontal => "H",
                Orientation::Vertical => "V",
            };
            let children: Vec<String> =
                tree.children(id).iter().map(|c| describe_node(tree, c)).collect();
            format!("{}:{}{:?}({})", axis, place, sizes, children.join(" "))
        }
    }
}

fn describe(layout: &TilingLayout, output: &Output) -> String {
    let tree = layout.tree(output).expect("output is registered");
    match tree.root() {
        Some(root) => describe_node(tree, &root),
        None => String::from("empty"),
    }
}

fn one_output() -> (TilingLayout, Output) {
    let mut layout = TilingLayout::new();
    let out = output(1, 1000, 800);
    layout.map_output(&out, Point::new(0, 0));
    (layout, out)
}

/// Lays every tree out anew by giving the output another usable area.
fn relayout(layout: &mut TilingLayout, out: &Output, w: i32, h: i32) -> (Output, Vec<Configure>) {
    let changed = Output { id: out.id, geometry: rect(0, 0, w, h), usable: rect(0, 0, w, h) };
    layout.map_output(&changed, Point::new(0, 0));
    let requests = layout.refresh(&vec![], &mut vec![]);
    (changed, requests)
}

#[test]
fn new_layout_has_no_outputs() {
    let layout = TilingLayout::new();
    assert_eq!(layout.outputs(), 0);
    assert!(layout.mapped().is_empty());
    assert!(!layout.is_registered(&output(1, 10, 10)));
    assert!(layout.tree(&output(1, 10, 10)).is_none());
}

#[test]
fn map_output_registers_once() {
    let (mut layout, out) = one_output();
    assert_eq!(layout.outputs(), 1);
    assert!(layout.is_registered(&out));
    assert_eq!(describe(&layout, &out), "empty");
    layout.map_output(&out, Point::new(5, 5));
    assert_eq!(layout.outputs(), 1);
    layout.map_output(&output(2, 640, 480), Point::new(1000, 0));
    assert_eq!(layout.outputs(), 2);
}

#[test]
fn first_window_fills_the_output() {
    let (mut layout, out) = one_output();
    let mut a = Window::new(1);
    let requests = layout.map(&mut a, &out, &vec![], &vec![], &mut vec![]);
    assert_eq!(requests, vec![request(1, 992, 792)]);
    assert!(a.tiling_node_id.is_some());
    assert_eq!(describe(&layout, &out), "1:0,0,1000,800");
    assert_eq!(layout.element_geometry(&a), Some(rect(0, 0, 1000, 800)));
}

#[test]
fn map_then_unmap_leaves_the_tree_empty() {
    let (mut layout, out) = one_output();
    let mut a = Window::new(1);
    layout.map(&mut a, &out, &vec![], &vec![], &mut vec![]);
    let (found, requests) = layout.unmap(&mut a, &vec![], &mut vec![]);
    assert!(found);
    assert!(requests.is_empty());
    assert!(a.tiling_node_id.is_none());
    assert_eq!(describe(&layout, &out), "empty");
    assert!(layout.mapped().is_empty());
    assert_eq!(layout.element_geometry(&a), None);
}

#[test]
fn unmap_of_a_window_that_is_not_tiled_changes_nothing() {
    let (mut layout, out) = one_output();
    let mut a = Window::new(1);
    layout.map(&mut a, &out, &vec![], &vec![], &mut vec![]);
    let mut stranger = Window::new(2);
    assert_eq!(layout.unmap(&mut stranger, &vec![], &mut vec![]), (false, vec![]));
    assert_eq!(describe(&layout, &out), "1:0,0,1000,800");
    // A handle without the slot does not find the leaf either.
    let mut copy = Window::new(1);
    assert_eq!(layout.unmap(&mut copy, &vec![], &mut vec![]), (false, vec![]));
    assert!(!layout.unmap_window_internal(&mut copy));
    assert_eq!(describe(&layout, &out), "1:0,0,1000,800");
}

#[test]
fn second_window_halves_the_output() {
    let (mut layout, out) = one_output();
    let mut a = Window::new(1);
    let mut b = Window::new(2);
    layout.map(&mut a, &out, &vec![], &vec![], &mut vec![]);
    let requests = layout.map(&mut b, &out, &vec![1], &vec![], &mut vec![]);
    assert_eq!(requests, vec![request(1, 492, 792), request(2, 492, 792)]);
    assert_eq!(
        describe(&layout, &out),
        "V:0,0,1000,800[500, 500](1:0,0,500,800 2:500,0,500,800)"
    );
    assert_eq!(layout.element_geometry(&a), Some(rect(0, 0, 500, 800)));
    assert_eq!(layout.element_geometry(&b), Some(rect(500, 0, 500, 800)));
}

#[test]
fn odd_width_goes_to_the_last_child() {
    let mut layout = TilingLayout::new();
    let out = output(1, 1001, 800);
    layout.map_output(&out, Point::new(0, 0));
    let mut a = Window::new(1);
    let mut b = Window::new(2);
    layout.map(&mut a, &out, &vec![], &vec![], &mut vec![]);
    layout.map(&mut b, &out, &vec![1], &vec![], &mut vec![]);
    assert_eq!(
        describe(&layout, &out),
        "V:0,0,1001,800[501, 500](1:0,0,501,800 2:501,0,500,800)"
    );
}

#[test]
fn tall_output_stacks_the_windows() {
    let mut layout = TilingLayout::new();
    let out = output(1, 800, 1000);
    layout.map_output(&out, Point::new(0, 0));
    let mut a = Window::new(1);
    let mut b = Window::new(2);
    layout.map(&mut a, &out, &vec![], &vec![], &mut vec![]);
    layout.map(&mut b, &out, &vec![1], &vec![], &mut vec![]);
    assert_eq!(
        describe(&layout, &out),
        "H:0,0,800,1000[500, 500](1:0,0,800,500 2:0,500,800,500)"
    );
}

#[test]
fn without_a_focused_window_the_root_is_wrapped() {
    let (mut layout, out) = one_output();
    let mut a = Window::new(1);
    let mut b = Window::new(2);
    let mut c = Window::new(3);
    layout.map(&mut a, &out, &vec![], &vec![], &mut vec![]);
    layout.map(&mut b, &out, &vec![1], &vec![], &mut vec![]);
    // Nothing in the stack is tiled here: the new window goes beside the root.
    layout.map(&mut c, &out, &vec![9], &vec![], &mut vec![]);
    assert_eq!(
        describe(&layout, &out),
        "V:0,0,1000,800[500, 500](V:0,0,500,800[250, 250](1:0,0,250,800 2:250,0,250,800) 3:500,0,500,800)"
    );
}

#[test]
fn third_window_subdivides_the_slot_of_the_focused_one() {
    let (mut layout, out) = one_output();
    let mut a = Window::new(1);
    let mut b = Window::new(2);
    let mut c = Window::new(3);
    layout.map(&mut a, &out, &vec![], &vec![], &mut vec![]);
    layout.map(&mut b, &out, &vec![1], &vec![], &mut vec![]);
    let requests = layout.map(&mut c, &out, &vec![2, 1], &vec![], &mut vec![]);
    // The root has its rectangle already, so the pass is skipped: the new
    // group and leaf keep the placeholder until the next pass.
    assert!(requests.is_empty());
    assert_eq!(
        describe(&layout, &out),
        "V:0,0,1000,800[500, 500](1:0,0,500,800 H:0,0,100,100[50, 50](2:500,0,500,800 3:0,0,100,100))"
    );
    let (out, requests) = relayout(&mut layout, &out, 1200, 800);
    assert_eq!(requests, vec![request(1, 592, 792), request(2, 592, 392), request(3, 592, 392)]);
    assert_eq!(
        describe(&layout, &out),
        "V:0,0,1200,800[600, 600](1:0,0,600,800 H:600,0,600,800[400, 400](2:600,0,600,400 3:600,400,600,400))"
    );
}

#[test]
fn new_group_takes_the_place_of_the_wrapped_node() {
    let (mut layout, out) = one_output();
    let mut a = Window::new(1);
    let mut b = Window::new(2);
    let mut c = Window::new(3);
    layout.map(&mut a, &out, &vec![], &vec![], &mut vec![]);
    layout.map(&mut b, &out, &vec![1], &vec![], &mut vec![]);
    layout.map(&mut c, &out, &vec![1, 2], &vec![], &mut vec![]);
    let (out, _) = relayout(&mut layout, &out, 1200, 800);
    assert_eq!(
        describe(&layout, &out),
        "V:0,0,1200,800[600, 600](H:0,0,600,800[400, 400](1:0,0,600,400 3:0,400,600,400) 2:600,0,600,800)"
    );
}

#[test]
fn removing_one_of_two_leaves_the_other_as_root() {
    let (mut layout, out) = one_output();
    let mut a = Window::new(1);
    let mut b = Window::new(2);
    layout.map(&mut a, &out, &vec![], &vec![], &mut vec![]);
    layout.map(&mut b, &out, &vec![1], &vec![], &mut vec![]);
    let (found, requests) = layout.unmap(&mut a, &vec![], &mut vec![]);
    assert!(found);
    assert_eq!(requests, vec![request(2, 992, 792)]);
    assert_eq!(describe(&layout, &out), "2:0,0,1000,800");
    assert_eq!(layout.element_geometry(&b), Some(rect(0, 0, 1000, 800)));
}

#[test]
fn survivor_takes_the_position_of_its_group() {
    let (mut layout, out) = one_output();
    let mut a = Window::new(1);
    let mut b = Window::new(2);
    let mut c = Window::new(3);
    layout.map(&mut a, &out, &vec![], &vec![], &mut vec![]);
    layout.map(&mut b, &out, &vec![1], &vec![], &mut vec![]);
    layout.map(&mut c, &out, &vec![1, 2], &vec![], &mut vec![]);
    let (out, _) = relayout(&mut layout, &out, 1200, 800);
    // The group of 1 and 3 is the first child of the root; 3 takes its place.
    let (found, _) = layout.unmap(&mut a, &vec![], &mut vec![]);
    assert!(found);
    let (out, _) = relayout(&mut layout, &out, 1000, 800);
    assert_eq!(
        describe(&layout, &out),
        "V:0,0,1000,800[500, 500](3:0,0,500,800 2:500,0,500,800)"
    );
    let (found, _) = layout.unmap(&mut b, &vec![], &mut vec![]);
    assert!(found);
    assert_eq!(describe(&layout, &out), "3:0,0,1000,800");
}

#[test]
fn survivor_of_the_second_child_stays_second() {
    let (mut layout, out) = one_output();
    let mut a = Window::new(1);
    let mut b = Window::new(2);
    let mut c = Window::new(3);
    layout.map(&mut a, &out, &vec![], &vec![], &mut vec![]);
    layout.map(&mut b, &out, &vec![1], &vec![], &mut vec![]);
    layout.map(&mut c, &out, &vec![2, 1], &vec![], &mut vec![]);
    layout.unmap(&mut b, &vec![], &mut vec![]);
    let (out, _) = relayout(&mut layout, &out, 1200, 800);
    assert_eq!(
        describe(&layout, &out),
        "V:0,0,1200,800[600, 600](1:0,0,600,800 3:600,0,600,800)"
    );
}

#[test]
fn refresh_twice_changes_nothing_the_second_time() {
    let (mut layout, out) = one_output();
    let mut a = Window::new(1);
    let mut b = Window::new(2);
    layout.map(&mut a, &out, &vec![], &vec![], &mut vec![]);
    layout.map(&mut b, &out, &vec![1], &vec![], &mut vec![]);
    let (out, first) = relayout(&mut layout, &out, 900, 700);
    assert_eq!(first.len(), 2);
    let before = describe(&layout, &out);
    let second = layout.refresh(&vec![], &mut vec![]);
    assert!(second.is_empty());
    assert_eq!(describe(&layout, &out), before);
    let third = layout.refresh(&vec![], &mut vec![]);
    assert!(third.is_empty());
    assert_eq!(describe(&layout, &out), before);
}

#[test]
fn refresh_removes_dead_windows() {
    let (mut layout, out) = one_output();
    let mut a = Window::new(1);
    let mut b = Window::new(2);
    layout.map(&mut a, &out, &vec![], &vec![], &mut vec![]);
    layout.map(&mut b, &out, &vec![1], &vec![], &mut vec![]);
    let states = vec![
        WindowState { window: 2, alive: false, fullscreen: false },
        WindowState { window: 1, alive: true, fullscreen: false },
    ];
    let requests = layout.refresh(&states, &mut vec![]);
    assert_eq!(requests, vec![request(1, 992, 792)]);
    assert_eq!(describe(&layout, &out), "1:0,0,1000,800");
    assert_eq!(layout.mapped().len(), 1);
}

#[test]
fn fullscreen_windows_get_no_request() {
    let (mut layout, out) = one_output();
    let mut a = Window::new(1);
    let mut b = Window::new(2);
    layout.map(&mut a, &out, &vec![], &vec![], &mut vec![]);
    let states = vec![WindowState { window: 1, alive: true, fullscreen: true }];
    let requests = layout.map(&mut b, &out, &vec![1], &states, &mut vec![]);
    assert_eq!(requests, vec![request(2, 492, 792)]);
    // The fullscreen window still has its leaf and its rectangle.
    assert_eq!(layout.element_geometry(&a), Some(rect(0, 0, 500, 800)));
}

#[test]
fn usable_area_is_the_target() {
    let mut layout = TilingLayout::new();
    let out = Output { id: 1, geometry: rect(0, 0, 1000, 800), usable: rect(0, 30, 1000, 770) };
    layout.map_output(&out, Point::new(0, 0));
    let mut a = Window::new(1);
    let requests = layout.map(&mut a, &out, &vec![], &vec![], &mut vec![]);
    assert_eq!(requests, vec![request(1, 992, 762)]);
    assert_eq!(describe(&layout, &out), "1:0,30,1000,770");
}

#[test]
fn tiny_rectangles_give_negative_requests() {
    let mut layout = TilingLayout::new();
    let out = output(1, 6, 4);
    layout.map_output(&out, Point::new(0, 0));
    let mut a = Window::new(1);
    let requests = layout.map(&mut a, &out, &vec![], &vec![], &mut vec![]);
    assert_eq!(requests, vec![request(1, -2, -4)]);
}

#[test]
fn turning_a_group_rescales_its_sizes() {
    let (mut layout, out) = one_output();
    let mut a = Window::new(1);
    let mut b = Window::new(2);
    layout.map(&mut a, &out, &vec![], &vec![], &mut vec![]);
    layout.map(&mut b, &out, &vec![1], &vec![], &mut vec![]);
    let requests = layout.update_orientation(Orientation::Horizontal, &out, &vec![2], &vec![], &mut vec![]);
    // The root keeps its rectangle, so no pass follows; the sizes are those
    // of the new axis.
    assert!(requests.is_empty());
    assert_eq!(
        describe(&layout, &out),
        "H:0,0,1000,800[400, 400](1:0,0,500,800 2:500,0,500,800)"
    );
    let (out, _) = relayout(&mut layout, &out, 1000, 600);
    assert_eq!(
        describe(&layout, &out),
        "H:0,0,1000,600[300, 300](1:0,0,1000,300 2:0,300,1000,300)"
    );
}

#[test]
fn turning_without_a_group_changes_nothing() {
    let (mut layout, out) = one_output();
    let mut a = Window::new(1);
    layout.map(&mut a, &out, &vec![], &vec![], &mut vec![]);
    let requests = layout.update_orientation(Orientation::Horizontal, &out, &vec![1], &vec![], &mut vec![]);
    assert!(requests.is_empty());
    assert_eq!(describe(&layout, &out), "1:0,0,1000,800");
    let requests = layout.update_orientation(Orientation::Horizontal, &out, &vec![], &vec![], &mut vec![]);
    assert!(requests.is_empty());
    assert_eq!(describe(&layout, &out), "1:0,0,1000,800");
}

#[test]
fn map_internal_sets_the_slot_and_leaves_the_placeholder() {
    let (mut layout, out) = one_output();
    let mut a = Window::new(1);
    layout.map_internal(&mut a, &out, &vec![]);
    assert!(a.tiling_node_id.is_some());
    assert_eq!(describe(&layout, &out), "1:0,0,100,100");
    let mut b = Window::new(2);
    layout.map_internal(&mut b, &out, &vec![1]);
    // The placeholder is square: not wider than tall, so the windows stack.
    assert_eq!(
        describe(&layout, &out),
        "H:0,0,100,100[50, 50](1:0,0,100,100 2:0,0,100,100)"
    );
}

#[test]
fn sizes_of_every_group_add_up_to_its_extent() {
    let (mut layout, out) = one_output();
    let mut windows: Vec<Window> = (1..=7).map(Window::new).collect();
    let mut stack: Vec<u64> = Vec::new();
    for w in windows.iter_mut() {
        layout.map(w, &out, &stack, &vec![], &mut vec![]);
        stack.insert(0, w.id);
    }
    let (out, _) = relayout(&mut layout, &out, 1333, 777);
    let tree = layout.tree(&out).unwrap();
    let mut pending = vec![tree.root().unwrap()];
    let mut groups = 0;
    while let Some(id) = pending.pop() {
        let children = tree.children(&id);
        if let Data::Group { orientation, sizes, last_geometry, .. } = tree.get(&id).unwrap() {
            groups += 1;
            assert_eq!(children.len(), 2);
            assert_eq!(sizes.len(), 2);
            let extent = match orientation {
                Orientation::Horizontal => last_geometry.size.h,
                Orientation::Vertical => last_geometry.size.w,
            };
            assert_eq!(sizes.iter().sum::<i32>(), extent);
            assert!(sizes.iter().all(|s| *s >= 0));
        } else {
            assert!(children.is_empty());
        }
        pending.extend(children);
    }
    assert_eq!(groups, 6);
    assert_eq!(layout.mapped().len(), 7);
}

#[test]
fn sweep_removes_dead_windows_without_a_pass() {
    let (mut layout, out) = one_output();
    let mut a = Window::new(1);
    let mut b = Window::new(2);
    layout.map(&mut a, &out, &vec![], &vec![], &mut vec![]);
    layout.map(&mut b, &out, &vec![1], &vec![], &mut vec![]);
    layout.sweep(&vec![WindowState { window: 1, alive: false, fullscreen: false }], &mut vec![]);
    // The window that stays is the root now, with the rectangle it had.
    assert_eq!(describe(&layout, &out), "2:500,0,500,800");
    let requests = layout.update_space_positions(&vec![]);
    assert_eq!(requests, vec![request(2, 992, 792)]);
    assert_eq!(describe(&layout, &out), "2:0,0,1000,800");
    assert!(layout.update_space_positions(&vec![]).is_empty());
}

#[test]
fn sweep_without_reports_changes_nothing() {
    let (mut layout, out) = one_output();
    let mut a = Window::new(1);
    let mut b = Window::new(2);
    layout.map(&mut a, &out, &vec![], &vec![], &mut vec![]);
    layout.map(&mut b, &out, &vec![1], &vec![], &mut vec![]);
    let before = describe(&layout, &out);
    layout.sweep(&vec![], &mut vec![]);
    layout.sweep(&vec![WindowState { window: 1, alive: true, fullscreen: true }], &mut vec![]);
    layout.sweep(&vec![WindowState { window: 9, alive: false, fullscreen: false }], &mut vec![]);
    assert_eq!(describe(&layout, &out), before);
}

#[test]
fn partition_tree_by_hand() {
    let mut tree = PartitionTree::new();
    assert!(tree.root().is_none());
    assert!(tree.leaves().is_empty());
    let first = tree.insert(1, &vec![], Size { w: 10, h: 20 }, 0);
    assert_eq!(tree.find_window(1), Some(first.clone()));
    assert_eq!(tree.find_window(2), None);
    let second = tree.insert(2, &vec![5, 1], Size { w: 10, h: 20 }, 7);
    let root = tree.root().unwrap();
    assert_eq!(tree.children(&root), vec![first.clone(), second.clone()]);
    assert_eq!(tree.parent(&first), Some(root.clone()));
    assert_eq!(tree.parent(&root), None);
    assert_eq!(tree.position(&root, &second), 1);
    assert_eq!(tree.get(&root).unwrap().marker(), 7);
    assert_eq!(tree.leaves(), vec![first.clone(), second.clone()]);
    assert_eq!(tree.last_active_window(&vec![5, 2, 1]).map(|(i, id)| (i, id)), Some((1, second.clone())));
    assert_eq!(tree.last_active_window(&vec![5]), None);
    tree.distribute(rect(0, 0, 300, 100));
    assert_eq!(*tree.get(&first).unwrap().geometry(), rect(0, 0, 300, 50));
    assert_eq!(*tree.get(&second).unwrap().geometry(), rect(0, 50, 300, 50));
    tree.set_orientation(&first, Orientation::Vertical);
    tree.distribute(rect(0, 0, 300, 100));
    assert_eq!(*tree.get(&first).unwrap().geometry(), rect(0, 0, 150, 100));
    assert_eq!(*tree.get(&second).unwrap().geometry(), rect(150, 0, 150, 100));
    assert_eq!(
        tree.requests(&vec![WindowState { window: 2, alive: true, fullscreen: true }], 4),
        vec![request(1, 142, 92)]
    );
    tree.remove(&first);
    assert_eq!(tree.root(), Some(second.clone()));
    assert!(tree.get(&first).is_none());
    assert!(tree.get(&root).is_none());
    tree.remove(&second);
    assert!(tree.root().is_none());
}
