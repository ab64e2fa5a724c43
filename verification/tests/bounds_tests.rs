use drawing_board::bounds::{create_bounding_rect, BoundingRect, Rect};
use drawing_board::point::Point;

#[test]
fn bounding_box_test() {
    let points = vec![
        Point::new(0, 2),
        Point::new(2, 1),
        Point::new(3, 0),
        Point::new(2, 3),
    ];
    let rect = create_bounding_rect(&points);
    assert_eq!([rect.min, rect.max], [Point::new(0, 0), Point::new(3, 3)]);
}

#[test]
fn bounds_of_a_single_point() {
    let p = Point::new(7, -2);
    let rect = create_bounding_rect(&vec![p]);
    assert_eq!(rect, BoundingRect::new(p, p));
    assert_eq!(rect.get_rect(), Rect { x: 7, y: -2, w: 0, h: 0 });
}

#[test]
fn bounds_of_a_vertical_run() {
    let points = vec![Point::new(4, 9), Point::new(4, -1), Point::new(4, 3)];
    let rect = create_bounding_rect(&points);
    assert_eq!(rect, BoundingRect::new(Point::new(4, -1), Point::new(4, 9)));
    assert_eq!(rect.get_rect(), Rect { x: 4, y: -1, w: 0, h: 10 });
}

#[test]
fn bounds_of_a_horizontal_run() {
    let points = vec![Point::new(-5, 2), Point::new(8, 2)];
    let rect = create_bounding_rect(&points);
    assert_eq!(rect, BoundingRect::new(Point::new(-5, 2), Point::new(8, 2)));
    assert_eq!(rect.get_rect(), Rect { x: -5, y: 2, w: 13, h: 0 });
}

#[test]
fn bounds_do_not_depend_on_order() {
    let forward = vec![Point::new(0, 2), Point::new(2, 1), Point::new(3, 0), Point::new(2, 3)];
    let backward = vec![Point::new(2, 3), Point::new(3, 0), Point::new(2, 1), Point::new(0, 2)];
    assert_eq!(create_bounding_rect(&forward), create_bounding_rect(&backward));
}

#[test]
fn bounds_enclose_every_point() {
    let points = vec![
        Point::new(12, -40),
        Point::new(-7, 3),
        Point::new(0, 0),
        Point::new(100, 55),
        Point::new(-7, 56),
        Point::new(99, -41),
    ];
    let rect = create_bounding_rect(&points);
    for p in points.iter() {
        assert!(rect.min.x <= p.x && p.x <= rect.max.x);
        assert!(rect.min.y <= p.y && p.y <= rect.max.y);
        assert!(rect.contains(p));
    }
    assert_eq!(rect, BoundingRect::new(Point::new(-7, -41), Point::new(100, 56)));
    assert!(rect.min.x <= rect.max.x && rect.min.y <= rect.max.y);
}

#[test]
fn bounds_at_the_edges_of_the_canvas() {
    let points = vec![Point::new(i32::MAX, i32::MIN), Point::new(i32::MIN, i32::MAX)];
    let rect = create_bounding_rect(&points);
    assert_eq!(
        rect,
        BoundingRect::new(Point::new(i32::MIN, i32::MIN), Point::new(i32::MAX, i32::MAX))
    );
    assert_eq!(
        rect.get_rect(),
        Rect { x: i32::MIN, y: i32::MIN, w: 4294967295, h: 4294967295 }
    );
}

#[test]
fn bounds_with_repeated_points() {
    let p = Point::new(3, 3);
    let rect = create_bounding_rect(&vec![p, p, p]);
    assert_eq!([rect.min, rect.max], [p, p]);
}

#[test]
fn bounding_rect_new_keeps_corners() {
    let rect = BoundingRect::new(Point::new(1, 2), Point::new(3, 5));
    assert_eq!(rect.min, Point::new(1, 2));
    assert_eq!(rect.max, Point::new(3, 5));
}

#[test]
fn get_rect_gives_corner_width_and_height() {
    let rect = BoundingRect::new(Point::new(1, 2), Point::new(4, 10));
    assert_eq!(rect.get_rect(), Rect { x: 1, y: 2, w: 3, h: 8 });
}

#[test]
fn get_rect_of_corners_out_of_order() {
    let rect = BoundingRect::new(Point::new(4, 10), Point::new(1, 2));
    assert_eq!(rect.get_rect(), Rect { x: 4, y: 10, w: -3, h: -8 });
}

#[test]
fn contains_counts_the_border() {
    let rect = BoundingRect::new(Point::new(0, 0), Point::new(3, 3));
    assert!(rect.contains(&Point::new(0, 0)));
    assert!(rect.contains(&Point::new(3, 3)));
    assert!(rect.contains(&Point::new(0, 3)));
    assert!(rect.contains(&Point::new(2, 1)));
    assert!(!rect.contains(&Point::new(4, 1)));
    assert!(!rect.contains(&Point::new(-1, 1)));
    assert!(!rect.contains(&Point::new(1, 4)));
    assert!(!rect.contains(&Point::new(1, -1)));
}
