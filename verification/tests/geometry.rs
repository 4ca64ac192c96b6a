use factory_tui::geometry::{contains, hit, Rect};

fn rect(x: u16, y: u16, width: u16, height: u16) -> Rect {
    Rect { x, y, width, height }
}

#[test]
fn contains_is_half_open() {
    let r = rect(2, 3, 4, 5);
    assert!(contains(r, 2, 3));
    assert!(contains(r, 5, 7));
    assert!(!contains(r, 6, 3));
    assert!(!contains(r, 2, 8));
    assert!(!contains(r, 1, 3));
    assert!(!contains(rect(0, 0, 0, 0), 0, 0));
}

#[test]
fn edges_saturate() {
    let r = rect(u16::MAX - 1, 0, 10, 1);
    assert_eq!(r.right(), u16::MAX);
    assert_eq!(r.bottom(), 1);
    assert!(contains(r, u16::MAX - 1, 0));
    assert!(!contains(r, u16::MAX, 0));
}

#[test]
fn smallest_containing_rectangle_takes_the_click() {
    let rects = vec![(0, rect(0, 0, 10, 10)), (1, rect(2, 2, 3, 3)), (2, rect(20, 20, 2, 2))];
    assert_eq!(hit(&rects, 3, 3), Some(1));
    assert_eq!(hit(&rects, 8, 8), Some(0));
    assert_eq!(hit(&rects, 21, 21), Some(2));
    assert_eq!(hit(&rects, 15, 15), None);
    assert_eq!(hit(&Vec::new(), 0, 0), None);
}

#[test]
fn equal_areas_go_to_the_earliest() {
    let rects = vec![(7, rect(0, 0, 2, 2)), (4, rect(0, 0, 2, 2))];
    assert_eq!(hit(&rects, 1, 1), Some(7));
}
