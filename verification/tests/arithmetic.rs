use tiling_layout::data::Data;
use tiling_layout::geometry::{Orientation, Point, Rectangle, Size};
use tiling_layout::sizes::{add_share, remove_share, rescale, round_div_exec, scale};

fn rect(x: i32, y: i32, w: i32, h: i32) -> Rectangle {
    Rectangle::from_loc_and_size((x, y), (w, h))
}

fn sizes_of(data: &Data) -> Vec<i32> {
    match data {
        Data::Group { sizes, .. } => sizes.clone(),
        Data::Mapped { .. } => Vec::new(),
    }
}

#[test]
fn round_div_rounds_to_nearest() {
    assert_eq!(round_div_exec(7, 2), 4);
    assert_eq!(round_div_exec(6, 4), 2);
    assert_eq!(round_div_exec(5, 4), 1);
    assert_eq!(round_div_exec(0, 3), 0);
    assert_eq!(round_div_exec(1, 3), 0);
    assert_eq!(round_div_exec(2, 3), 1);
}

#[test]
fn round_div_rounds_halves_away_from_zero() {
    assert_eq!(round_div_exec(1, 2), 1);
    assert_eq!(round_div_exec(-1, 2), -1);
    assert_eq!(round_div_exec(-7, 2), -4);
    assert_eq!(round_div_exec(-5, 4), -1);
}

#[test]
fn scale_is_proportional() {
    assert_eq!(scale(50, 1000, 100), 500);
    assert_eq!(scale(50, 101, 100), 51);
    assert_eq!(scale(1, 1, 3), 0);
    assert_eq!(scale(2, 1, 3), 1);
    assert_eq!(scale(-50, 101, 100), -51);
}

#[test]
fn scale_from_zero_extent_is_zero() {
    assert_eq!(scale(0, 800, 0), 0);
    assert_eq!(scale(7, 800, 0), 0);
}

#[test]
fn rescale_keeps_the_sum() {
    assert_eq!(rescale(&vec![50, 50], 100, 1000), vec![500, 500]);
    assert_eq!(rescale(&vec![50, 50], 100, 101), vec![51, 50]);
    assert_eq!(rescale(&vec![50, 50], 100, 1), vec![1, 0]);
    assert_eq!(rescale(&vec![0, 0], 0, 800), vec![0, 800]);
    assert_eq!(rescale(&vec![333, 333, 334], 1000, 100), vec![33, 33, 34]);
}

#[test]
fn rescale_pushes_surplus_onto_the_last_entry() {
    // Each of the four halves rounds up; the last entry pays for it.
    assert_eq!(rescale(&vec![1, 1, 1, 1], 4, 2), vec![1, 1, 1, -1]);
}

#[test]
fn remove_share_hands_the_size_on() {
    assert_eq!(remove_share(&vec![300, 300, 400], 2, 1000), vec![420, 580]);
    assert_eq!(remove_share(&vec![500, 250, 250], 0, 1000), vec![375, 625]);
    assert_eq!(remove_share(&vec![2, 2, 2, 0, 2], 4, 8), vec![3, 3, 3, -1]);
    assert_eq!(remove_share(&vec![500, 500], 0, 1000), vec![1000]);
}

#[test]
fn add_share_makes_room() {
    assert_eq!(add_share(&vec![500, 500], 2, 1000), vec![334, 334, 332]);
    assert_eq!(add_share(&vec![500, 500], 0, 1000), vec![332, 334, 334]);
    assert_eq!(add_share(&vec![1000], 1, 1000), vec![500, 500]);
    assert_eq!(add_share(&vec![], 0, 1000), vec![1000]);
}

#[test]
fn new_group_halves_the_extent() {
    let group = Data::new_group(Orientation::Vertical, rect(0, 0, 100, 60), 7);
    assert_eq!(sizes_of(&group), vec![50, 50]);
    assert!(group.is_group());
    assert_eq!(group.len(), 2);
    assert_eq!(group.orientation(), Orientation::Vertical);
    assert_eq!(group.marker(), 7);
    let group = Data::new_group(Orientation::Horizontal, rect(0, 0, 100, 61), 0);
    assert_eq!(sizes_of(&group), vec![30, 30]);
    assert_eq!(*group.geometry(), rect(0, 0, 100, 61));
}

#[test]
fn leaf_knows_its_window() {
    let leaf = Data::new_mapped(3, rect(1, 2, 3, 4));
    assert!(!leaf.is_group());
    assert!(leaf.is_mapped(None));
    assert!(leaf.is_mapped(Some(3)));
    assert!(!leaf.is_mapped(Some(4)));
    assert_eq!(leaf.window(), Some(3));
    assert_eq!(leaf.len(), 1);
    assert_eq!(*leaf.geometry(), rect(1, 2, 3, 4));
    let group = Data::new_group(Orientation::Vertical, rect(0, 0, 100, 100), 0);
    assert!(!group.is_mapped(None));
    assert_eq!(group.window(), None);
}

#[test]
fn update_geometry_rescales_a_group() {
    let mut group = Data::new_group(Orientation::Vertical, rect(0, 0, 100, 100), 0);
    group.update_geometry(rect(10, 20, 1001, 800));
    assert_eq!(sizes_of(&group), vec![501, 500]);
    assert_eq!(*group.geometry(), rect(10, 20, 1001, 800));
    let mut leaf = Data::new_mapped(1, rect(0, 0, 100, 100));
    leaf.update_geometry(rect(5, 5, 50, 50));
    assert_eq!(*leaf.geometry(), rect(5, 5, 50, 50));
    assert_eq!(leaf.window(), Some(1));
}

#[test]
fn turning_a_group_rescales_to_the_other_axis() {
    let mut group = Data::new_group(Orientation::Vertical, rect(0, 0, 100, 100), 0);
    group.update_geometry(rect(0, 0, 1000, 800));
    let turned = group.with_orientation(Orientation::Horizontal);
    assert_eq!(sizes_of(&turned), vec![400, 400]);
    assert_eq!(turned.orientation(), Orientation::Horizontal);
    assert_eq!(*turned.geometry(), rect(0, 0, 1000, 800));
}

#[test]
fn add_and_remove_window_keep_the_sum() {
    let mut group = Data::new_group(Orientation::Vertical, rect(0, 0, 100, 100), 0);
    group.update_geometry(rect(0, 0, 1000, 800));
    group.add_window(1);
    assert_eq!(sizes_of(&group), vec![334, 332, 334]);
    assert_eq!(group.len(), 3);
    group.remove_window(0);
    assert_eq!(sizes_of(&group), vec![443, 557]);
    assert_eq!(sizes_of(&group).iter().sum::<i32>(), 1000);
}

#[test]
fn copy_is_equal() {
    let mut group = Data::new_group(Orientation::Horizontal, rect(0, 0, 100, 100), 9);
    group.update_geometry(rect(0, 0, 10, 33));
    let copy = group.copy();
    assert_eq!(sizes_of(&copy), sizes_of(&group));
    assert_eq!(copy.marker(), 9);
    assert_eq!(*copy.geometry(), rect(0, 0, 10, 33));
}

#[test]
fn rectangle_cut_follows_the_axis() {
    let r = rect(10, 20, 100, 50);
    assert_eq!(r.cut(Orientation::Vertical, 30, 40), rect(40, 20, 40, 50));
    assert_eq!(r.cut(Orientation::Horizontal, 10, 15), rect(10, 30, 100, 15));
    assert_eq!(r.length(Orientation::Vertical), 100);
    assert_eq!(r.length(Orientation::Horizontal), 50);
    assert_eq!(Point::new(1, 2).plus(Point::new(3, 4)), Point { x: 4, y: 6 });
    assert_eq!(r.size, Size { w: 100, h: 50 });
}
