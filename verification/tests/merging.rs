use tiling_layout::data::Data;
use tiling_layout::geometry::{Orientation, Point, Rectangle, Size};
use tiling_layout::layout::{Output, OutputNotMapped, TilingLayout};
use tiling_layout::queries::{Drawn, Placed, Surface, Tiled};
use tiling_layout::tree::PartitionTree;
use tiling_layout::window::{Configure, Window, WindowState};

fn bounds(x: i32, y: i32, w: i32, h: i32) -> Rectangle {
    Rectangle::from_loc_and_size((x, y), (w, h))
}

fn monitor(id: u64, w: i32, h: i32) -> Output {
    Output { id, geometry: bounds(0, 0, w, h), usable: bounds(0, 0, w, h) }
}

fn picture_of(tree: &PartitionTree, id: &id_tree::NodeId) -> String {
    let data = tree.get(id).expect("node is in the tree");
    let g = data.geometry();
    let place = format!("{},{},{},{}", g.loc.x, g.loc.y, g.size.w, g.size.h);
    match data {
        Data::Mapped { mapped, .. } => format!("{}:{}", mapped, place),
        Data::Group { orientation, sizes, .. } => {
            let axis = match orientation {
                Orientation::Horizontal => "H",
                Orientation::Vertical => "V",
            };
            let children: Vec<String> =
                tree.children(id).iter().map(|c| picture_of(tree, c)).collect();
            format!("{}:{}{:?}({})", axis, place, sizes, children.join(" "))
        }
    }
}

fn picture(layout: &TilingLayout, output: &Output) -> String {
    let tree = layout.tree(output).expect("output is registered");
    match tree.root() {
        Some(root) => picture_of(tree, &root),
        None => String::from("empty"),
    }
}

fn layout_with(out: &Output, at: Point, windows: &mut Vec<Window>) -> TilingLayout {
    let mut layout = TilingLayout::new();
    layout.map_output(out, at);
    let mut stack: Vec<u64> = Vec::new();
    for w in windows.iter_mut() {
        layout.map(w, out, &stack, &vec![], &mut vec![]);
        stack.insert(0, w.id);
    }
    layout
}

fn inside(outer: &Rectangle, inner: &Rectangle) -> bool {
    outer.loc.x <= inner.loc.x
        && outer.loc.y <= inner.loc.y
        && inner.loc.x + inner.size.w <= outer.loc.x + outer.size.w
        && inner.loc.y + inner.size.h <= outer.loc.y + outer.size.h
}

#[test]
fn merge_keeps_every_window() {
    let out = monitor(1, 1000, 800);
    let mut ours = vec![Window::new(1), Window::new(2)];
    let mut theirs = vec![Window::new(3), Window::new(4), Window::new(5)];
    let mut x = layout_with(&out, Point::new(0, 0), &mut ours);
    let y = layout_with(&out, Point::new(0, 0), &mut theirs);
    let old_slots: Vec<_> = theirs.iter().map(|w| w.tiling_node_id.clone()).collect();
    let (moved, requests) = x.merge(y, &vec![], &mut theirs);
    assert_eq!(moved.len(), 3);
    assert_eq!(moved.iter().map(|m| m.window).collect::<Vec<u64>>(), vec![3, 4, 5]);
    assert_eq!(requests.len(), 5);
    assert_eq!(x.outputs(), 1);
    let mapped = x.mapped();
    assert_eq!(mapped.iter().map(|t| t.window).collect::<Vec<u64>>(), vec![1, 2, 3, 4, 5]);
    // The slots of the windows that moved name their new leaves.
    for ((w, m), old) in theirs.iter().zip(moved.iter()).zip(old_slots.iter()) {
        assert_eq!(w.id, m.window);
        assert_eq!(w.tiling_node_id, Some(m.node.clone()));
        assert!(w.tiling_node_id != *old);
    }
    for w in ours.iter().chain(theirs.iter()) {
        let geo = x.element_geometry(w).expect("window is tiled");
        assert!(inside(&out.usable, &geo));
        assert!(geo.size.w > 0 && geo.size.h > 0);
    }
    assert_eq!(
        picture(&x, &out),
        "H:0,0,1000,800[400, 400](V:0,0,1000,400[500, 500](1:0,0,500,400 2:500,0,500,400) \
         V:0,400,1000,400[500, 500](3:0,400,500,400 H:500,400,500,400[200, 200](4:500,400,500,200 5:500,600,500,200)))"
    );
}

#[test]
fn merge_of_a_single_window() {
    let out = monitor(1, 800, 1000);
    let mut ours = vec![Window::new(1)];
    let mut theirs = vec![Window::new(2)];
    let mut x = layout_with(&out, Point::new(0, 0), &mut ours);
    let y = layout_with(&out, Point::new(0, 0), &mut theirs);
    let stale = Window { id: 2, tiling_node_id: theirs[0].tiling_node_id.clone() };
    let (moved, requests) = x.merge(y, &vec![], &mut theirs);
    assert_eq!(moved.len(), 1);
    assert_eq!(
        requests,
        vec![
            Configure { window: 1, size: Size { w: 392, h: 992 } },
            Configure { window: 2, size: Size { w: 392, h: 992 } },
        ]
    );
    // The output is taller than wide: the two trees stand side by side.
    assert_eq!(picture(&x, &out), "V:0,0,800,1000[400, 400](1:0,0,400,1000 2:400,0,400,1000)");
    // The old slot of the window that moved does not find it any more; the
    // handle that went through the merge does.
    assert_eq!(x.element_geometry(&stale), None);
    assert_eq!(theirs[0].tiling_node_id, Some(moved[0].node.clone()));
    assert_eq!(x.element_geometry(&theirs[0]), Some(bounds(400, 0, 400, 1000)));
    let mut moved_window = theirs.pop().unwrap();
    assert!(x.unmap(&mut moved_window, &vec![], &mut vec![]).0);
    assert!(moved_window.tiling_node_id.is_none());
}

#[test]
fn merge_into_an_empty_tree_moves_the_tree() {
    let out = monitor(1, 1000, 800);
    let mut theirs = vec![Window::new(3), Window::new(4)];
    let mut x = TilingLayout::new();
    x.map_output(&out, Point::new(10, 20));
    let y = layout_with(&out, Point::new(0, 0), &mut theirs);
    let before = picture(&y, &out);
    let (moved, requests) = x.merge(y, &vec![], &mut theirs);
    assert_eq!(moved.len(), 2);
    assert!(requests.is_empty());
    assert_eq!(picture(&x, &out), before);
    // The leaves are the same nodes: the slots still hold.
    assert_eq!(x.element_geometry(&theirs[0]), Some(bounds(10, 20, 500, 800)));
    assert_eq!(x.element_geometry(&theirs[1]), Some(bounds(510, 20, 500, 800)));
}

#[test]
fn merge_registers_unknown_outputs() {
    let first = monitor(1, 1000, 800);
    let second = monitor(2, 640, 480);
    let mut ours = vec![Window::new(1)];
    let mut theirs = vec![Window::new(2)];
    let mut x = layout_with(&first, Point::new(0, 0), &mut ours);
    let y = layout_with(&second, Point::new(1000, 0), &mut theirs);
    let (moved, _) = x.merge(y, &vec![], &mut vec![]);
    assert_eq!(moved.len(), 1);
    assert_eq!(x.outputs(), 2);
    assert!(x.is_registered(&second));
    assert_eq!(picture(&x, &first), "1:0,0,1000,800");
    assert_eq!(picture(&x, &second), "2:0,0,640,480");
    assert_eq!(
        x.mapped(),
        vec![
            Tiled { output: first, window: 1, location: Point::new(0, 0) },
            Tiled { output: second, window: 2, location: Point::new(1000, 0) },
        ]
    );
}

#[test]
fn merge_of_an_empty_layout_changes_nothing() {
    let out = monitor(1, 1000, 800);
    let mut ours = vec![Window::new(1), Window::new(2)];
    let mut x = layout_with(&out, Point::new(0, 0), &mut ours);
    let before = picture(&x, &out);
    let (moved, requests) = x.merge(TilingLayout::new(), &vec![], &mut vec![]);
    assert!(moved.is_empty());
    assert!(requests.is_empty());
    assert_eq!(picture(&x, &out), before);
    let mut y = TilingLayout::new();
    y.map_output(&out, Point::new(0, 0));
    let (moved, requests) = x.merge(y, &vec![], &mut vec![]);
    assert!(moved.is_empty());
    assert!(requests.is_empty());
    assert_eq!(picture(&x, &out), before);
}

#[test]
fn unmap_output_moves_its_windows_to_the_first_output_that_stays() {
    let first = monitor(1, 1000, 800);
    let second = monitor(2, 640, 480);
    let mut layout = TilingLayout::new();
    layout.map_output(&first, Point::new(0, 0));
    layout.map_output(&second, Point::new(1000, 0));
    let mut a = Window::new(1);
    let mut b = Window::new(2);
    let mut c = Window::new(3);
    layout.map(&mut a, &first, &vec![], &vec![], &mut vec![]);
    layout.map(&mut b, &second, &vec![], &vec![], &mut vec![]);
    layout.map(&mut c, &second, &vec![2], &vec![], &mut vec![]);
    assert_eq!(picture(&layout, &second), "V:0,0,640,480[320, 320](2:0,0,320,480 3:320,0,320,480)");
    let (moved, requests) = layout.unmap_output(&second, &vec![], &mut vec![]);
    assert_eq!(moved.iter().map(|m| m.window).collect::<Vec<u64>>(), vec![2, 3]);
    assert_eq!(requests.len(), 3);
    assert_eq!(layout.outputs(), 1);
    assert!(!layout.is_registered(&second));
    assert_eq!(
        picture(&layout, &first),
        "H:0,0,1000,800[400, 400](1:0,0,1000,400 V:0,400,1000,400[500, 500](2:0,400,500,400 3:500,400,500,400))"
    );
    assert_eq!(layout.output_for_element(&b), Some(first));
}

#[test]
fn unmap_output_of_the_first_output_merges_into_the_second() {
    let first = monitor(1, 1000, 800);
    let second = monitor(2, 480, 640);
    let mut layout = TilingLayout::new();
    layout.map_output(&first, Point::new(0, 0));
    layout.map_output(&second, Point::new(1000, 0));
    let mut a = Window::new(1);
    let mut b = Window::new(2);
    layout.map(&mut a, &first, &vec![], &vec![], &mut vec![]);
    layout.map(&mut b, &second, &vec![], &vec![], &mut vec![]);
    let (moved, _) = layout.unmap_output(&first, &vec![], &mut vec![]);
    assert_eq!(moved.len(), 1);
    assert_eq!(moved[0].window, 1);
    assert_eq!(picture(&layout, &second), "V:0,0,480,640[240, 240](2:0,0,240,640 1:240,0,240,640)");
}

#[test]
fn unmap_output_of_an_unknown_output_changes_nothing() {
    let first = monitor(1, 1000, 800);
    let mut layout = TilingLayout::new();
    layout.map_output(&first, Point::new(0, 0));
    let mut a = Window::new(1);
    layout.map(&mut a, &first, &vec![], &vec![], &mut vec![]);
    let (moved, requests) = layout.unmap_output(&monitor(9, 10, 10), &vec![], &mut vec![]);
    assert!(moved.is_empty());
    assert!(requests.is_empty());
    assert_eq!(layout.outputs(), 1);
    assert_eq!(picture(&layout, &first), "1:0,0,1000,800");
}

#[test]
fn dead_windows_do_not_survive_a_merge() {
    let out = monitor(1, 1000, 800);
    let mut ours = vec![Window::new(1)];
    let mut theirs = vec![Window::new(2), Window::new(3)];
    let mut x = layout_with(&out, Point::new(0, 0), &mut ours);
    let y = layout_with(&out, Point::new(0, 0), &mut theirs);
    let states = vec![WindowState { window: 2, alive: false, fullscreen: false }];
    let (moved, _) = x.merge(y, &states, &mut theirs);
    assert_eq!(moved.len(), 2);
    // The dead window has no leaf and no slot; the other names its new leaf.
    assert!(theirs[0].tiling_node_id.is_none());
    assert_eq!(theirs[1].tiling_node_id, Some(moved[1].node.clone()));
    assert_eq!(x.element_geometry(&theirs[1]), Some(bounds(0, 400, 1000, 400)));
    assert_eq!(x.mapped().iter().map(|t| t.window).collect::<Vec<u64>>(), vec![1, 3]);
    assert_eq!(picture(&x, &out), "H:0,0,1000,800[400, 400](1:0,0,1000,400 3:0,400,1000,400)");
}

#[test]
fn mapped_lists_windows_with_their_global_position() {
    let first = monitor(1, 1000, 800);
    let second = Output { id: 2, geometry: bounds(0, 0, 640, 480), usable: bounds(0, 24, 640, 456) };
    let mut layout = TilingLayout::new();
    layout.map_output(&first, Point::new(-1000, 0));
    layout.map_output(&second, Point::new(0, 100));
    let mut a = Window::new(1);
    let mut b = Window::new(2);
    let mut c = Window::new(3);
    layout.map(&mut a, &first, &vec![], &vec![], &mut vec![]);
    layout.map(&mut b, &first, &vec![1], &vec![], &mut vec![]);
    layout.map(&mut c, &second, &vec![], &vec![], &mut vec![]);
    assert_eq!(
        layout.mapped(),
        vec![
            Tiled { output: first, window: 1, location: Point::new(-1000, 0) },
            Tiled { output: first, window: 2, location: Point::new(-500, 0) },
            Tiled { output: second, window: 3, location: Point::new(0, 124) },
        ]
    );
    assert_eq!(layout.element_geometry(&b), Some(bounds(-500, 0, 500, 800)));
    assert_eq!(layout.element_geometry(&c), Some(bounds(0, 124, 640, 456)));
    assert_eq!(layout.output_for_element(&a), Some(first));
    assert_eq!(layout.output_for_element(&c), Some(second));
    assert_eq!(layout.output_for_element(&Window::new(9)), None);
    // The output is found by the window's identity, the rectangle by its slot.
    assert_eq!(layout.output_for_element(&Window::new(1)), Some(first));
    assert_eq!(layout.element_geometry(&Window::new(1)), None);
}

#[test]
fn moving_an_output_moves_its_windows() {
    let out = monitor(1, 1000, 800);
    let mut layout = TilingLayout::new();
    layout.map_output(&out, Point::new(0, 0));
    let mut a = Window::new(1);
    layout.map(&mut a, &out, &vec![], &vec![], &mut vec![]);
    layout.map_output(&out, Point::new(300, -200));
    assert_eq!(layout.outputs(), 1);
    assert_eq!(layout.element_geometry(&a), Some(bounds(300, -200, 1000, 800)));
    assert_eq!(layout.mapped(), vec![Tiled { output: out, window: 1, location: Point::new(300, -200) }]);
}

#[test]
fn windows_lists_surfaces_at_their_offsets() {
    let out = monitor(1, 1000, 800);
    let mut layout = TilingLayout::new();
    layout.map_output(&out, Point::new(100, 0));
    let mut a = Window::new(1);
    let mut b = Window::new(2);
    layout.map(&mut a, &out, &vec![], &vec![], &mut vec![]);
    layout.map(&mut b, &out, &vec![1], &vec![], &mut vec![]);
    let surfaces = vec![
        Surface { window: 2, surface: 20, offset: Point::new(0, 0) },
        Surface { window: 1, surface: 10, offset: Point::new(0, 0) },
        Surface { window: 7, surface: 70, offset: Point::new(1, 1) },
        Surface { window: 1, surface: 11, offset: Point::new(5, -7) },
    ];
    assert_eq!(
        layout.windows(&surfaces),
        vec![
            Placed { output: out, surface: 10, location: Point::new(100, 0) },
            Placed { output: out, surface: 11, location: Point::new(105, -7) },
            Placed { output: out, surface: 20, location: Point::new(600, 0) },
        ]
    );
    assert!(layout.windows(&vec![]).is_empty());
}

#[test]
fn render_output_fails_for_an_unknown_output() {
    let out = monitor(1, 1000, 800);
    let mut layout = TilingLayout::new();
    assert_eq!(layout.render_output(&out, 1), Err(OutputNotMapped));
    layout.map_output(&out, Point::new(0, 0));
    assert_eq!(layout.render_output(&out, 1), Ok(vec![]));
    assert_eq!(layout.render_output(&monitor(2, 1, 1), 1), Err(OutputNotMapped));
}

#[test]
fn render_output_scales_positions() {
    let first = monitor(1, 1000, 800);
    let second = monitor(2, 640, 480);
    let mut layout = TilingLayout::new();
    layout.map_output(&first, Point::new(10, 20));
    layout.map_output(&second, Point::new(1010, 20));
    let mut a = Window::new(1);
    let mut b = Window::new(2);
    let mut c = Window::new(3);
    layout.map(&mut a, &first, &vec![], &vec![], &mut vec![]);
    layout.map(&mut b, &first, &vec![1], &vec![], &mut vec![]);
    layout.map(&mut c, &second, &vec![], &vec![], &mut vec![]);
    assert_eq!(
        layout.render_output(&first, 2),
        Ok(vec![
            Drawn { window: 1, location: Point::new(20, 40) },
            Drawn { window: 2, location: Point::new(1020, 40) },
        ])
    );
    assert_eq!(
        layout.render_output(&second, 1),
        Ok(vec![Drawn { window: 3, location: Point::new(1010, 20) }])
    );
    // A product beyond the range of coordinates stops at the bound.
    assert_eq!(
        layout.render_output(&second, i32::MAX),
        Ok(vec![Drawn { window: 3, location: Point::new(i32::MAX, i32::MAX) }])
    );
    assert_eq!(
        layout.render_output(&second, i32::MIN),
        Ok(vec![Drawn { window: 3, location: Point::new(i32::MIN, i32::MIN) }])
    );
}

#[test]
fn every_window_is_listed_once() {
    let out = monitor(1, 1000, 800);
    let mut windows: Vec<Window> = (1..=6).map(Window::new).collect();
    let mut layout = layout_with(&out, Point::new(0, 0), &mut windows);
    let listed: Vec<u64> = layout.mapped().iter().map(|t| t.window).collect();
    let mut sorted = listed.clone();
    sorted.sort();
    sorted.dedup();
    assert_eq!(sorted, vec![1, 2, 3, 4, 5, 6]);
    assert_eq!(listed.len(), 6);
    assert!(layout.unmap(&mut windows[2], &vec![], &mut vec![]).0);
    assert!(layout.unmap(&mut windows[4], &vec![], &mut vec![]).0);
    let mut listed: Vec<u64> = layout.mapped().iter().map(|t| t.window).collect();
    listed.sort();
    assert_eq!(listed, vec![1, 2, 4, 6]);
    for w in windows.iter() {
        let tiled = [1, 2, 4, 6].contains(&w.id);
        assert_eq!(w.tiling_node_id.is_some(), tiled);
        assert_eq!(layout.output_for_element(w).is_some(), tiled);
        assert_eq!(layout.element_geometry(w).is_some(), tiled);
    }
}

#[test]
fn output_location_is_the_registered_one() {
    let out = monitor(1, 1000, 800);
    let mut layout = TilingLayout::new();
    assert_eq!(layout.output_location(&out), None);
    layout.map_output(&out, Point::new(3, 4));
    assert_eq!(layout.output_location(&out), Some(Point::new(3, 4)));
    layout.map_output(&out, Point::new(-5, 6));
    assert_eq!(layout.output_location(&out), Some(Point::new(-5, 6)));
}

#[test]
fn laid_out_windows_tile_the_usable_area() {
    let out = Output { id: 1, geometry: bounds(0, 0, 1003, 777), usable: bounds(7, 11, 990, 750) };
    let mut windows: Vec<Window> = (1..=5).map(Window::new).collect();
    let mut layout = layout_with(&out, Point::new(0, 0), &mut windows);
    let wider = Output { id: 1, geometry: bounds(0, 0, 1003, 777), usable: bounds(7, 11, 991, 751) };
    layout.map_output(&wider, Point::new(0, 0));
    layout.refresh(&vec![], &mut vec![]);
    let mut area: i64 = 0;
    let rects: Vec<Rectangle> =
        windows.iter().map(|w| layout.element_geometry(w).expect("window is tiled")).collect();
    for (i, r) in rects.iter().enumerate() {
        assert!(inside(&wider.usable, r));
        area += i64::from(r.size.w) * i64::from(r.size.h);
        for s in rects.iter().skip(i + 1) {
            let apart = r.loc.x + r.size.w <= s.loc.x
                || s.loc.x + s.size.w <= r.loc.x
                || r.loc.y + r.size.h <= s.loc.y
                || s.loc.y + s.size.h <= r.loc.y;
            assert!(apart);
        }
    }
    assert_eq!(area, 991 * 751);
}

#[test]
fn unmap_output_writes_the_slots_of_the_windows_that_moved() {
    let first = monitor(1, 1000, 800);
    let second = monitor(2, 640, 480);
    let mut layout = TilingLayout::new();
    layout.map_output(&first, Point::new(0, 0));
    layout.map_output(&second, Point::new(1000, 0));
    let mut a = Window::new(1);
    let mut b = Window::new(2);
    layout.map(&mut a, &first, &vec![], &vec![], &mut vec![]);
    layout.map(&mut b, &second, &vec![], &vec![], &mut vec![]);
    let slot_of_a = a.tiling_node_id.clone();
    let mut handles = vec![a, b];
    let (moved, _) = layout.unmap_output(&second, &vec![], &mut handles);
    assert_eq!(moved.len(), 1);
    assert_eq!(handles[0].tiling_node_id, slot_of_a);
    assert_eq!(handles[1].tiling_node_id, Some(moved[0].node.clone()));
    assert_eq!(layout.element_geometry(&handles[0]), Some(bounds(0, 0, 1000, 400)));
    assert_eq!(layout.element_geometry(&handles[1]), Some(bounds(0, 400, 1000, 400)));
    let mut b = handles.pop().unwrap();
    assert!(layout.unmap(&mut b, &vec![], &mut handles).0);
    assert_eq!(layout.element_geometry(&handles[0]), Some(bounds(0, 0, 1000, 800)));
}

#[test]
fn refresh_empties_the_slots_of_dead_windows() {
    let out = monitor(1, 1000, 800);
    let mut handles = vec![Window::new(1), Window::new(2), Window::new(3)];
    let mut layout = layout_with(&out, Point::new(0, 0), &mut handles);
    let slot_of_first = handles[0].tiling_node_id.clone();
    let states = vec![
        WindowState { window: 2, alive: false, fullscreen: false },
        WindowState { window: 3, alive: true, fullscreen: false },
    ];
    layout.refresh(&states, &mut handles);
    assert_eq!(handles[0].tiling_node_id, slot_of_first);
    assert!(handles[1].tiling_node_id.is_none());
    assert!(handles[2].tiling_node_id.is_some());
    assert_eq!(layout.mapped().iter().map(|t| t.window).collect::<Vec<u64>>(), vec![1, 3]);
    assert_eq!(layout.element_geometry(&handles[1]), None);
    assert!(!layout.unmap_window_internal(&mut handles[1]));
    // The sweep alone does the same.
    layout.sweep(&vec![WindowState { window: 3, alive: false, fullscreen: false }], &mut handles);
    assert!(handles[2].tiling_node_id.is_none());
    assert!(handles[0].tiling_node_id.is_some());
}

#[test]
fn a_window_that_is_dead_when_mapped_gets_no_slot() {
    let out = monitor(1, 1000, 800);
    let mut layout = TilingLayout::new();
    layout.map_output(&out, Point::new(0, 0));
    let mut a = Window::new(1);
    let states = vec![WindowState { window: 1, alive: false, fullscreen: false }];
    let requests = layout.map(&mut a, &out, &vec![], &states, &mut vec![]);
    assert!(requests.is_empty());
    assert!(a.tiling_node_id.is_none());
    assert!(layout.mapped().is_empty());
}

#[test]
fn unmap_window_internal_empties_the_slot() {
    let out = monitor(1, 1000, 800);
    let mut handles = vec![Window::new(1), Window::new(2)];
    let mut layout = layout_with(&out, Point::new(0, 0), &mut handles);
    let slot_of_second = handles[1].tiling_node_id.clone();
    let mut first = handles.remove(0);
    assert!(layout.unmap_window_internal(&mut first));
    assert!(first.tiling_node_id.is_none());
    assert_eq!(handles[0].tiling_node_id, slot_of_second);
    assert!(!layout.unmap_window_internal(&mut first));
    assert_eq!(picture(&layout, &out), "2:500,0,500,800");
}
