use drawing_board::bounds::BoundingRect;
use drawing_board::line::{DrawnLine, Shape};
use drawing_board::point::Point;

#[test]
fn new_line_holds_its_origin() {
    let line = DrawnLine::new(Point::new(10, 10));
    assert_eq!(line.points(), vec![Point::new(10, 10)]);
    assert_eq!(line.first(), Point::new(10, 10));
    assert_eq!(line.last(), Point::new(10, 10));
    assert!(line.is_single_point());
}

#[test]
fn extend_keeps_a_point_beyond_the_threshold() {
    let mut line = DrawnLine::new(Point::new(0, 0));
    line.extend(Point::new(10, 0), 5);
    assert_eq!(line.points(), vec![Point::new(0, 0), Point::new(10, 0)]);
    assert_eq!(line.first(), Point::new(0, 0));
    assert_eq!(line.last(), Point::new(10, 0));
    assert!(!line.is_single_point());
}

#[test]
fn extend_drops_a_point_within_the_threshold() {
    let mut line = DrawnLine::new(Point::new(0, 0));
    line.extend(Point::new(3, 0), 5);
    assert_eq!(line.points(), vec![Point::new(0, 0)]);
    line.extend(Point::new(4, 3), 5);
    assert_eq!(line.points(), vec![Point::new(0, 0)]);
    line.extend(Point::new(5, 0), 5);
    assert_eq!(line.points(), vec![Point::new(0, 0)]);
}

#[test]
fn extend_measures_from_the_last_kept_point() {
    let mut line = DrawnLine::new(Point::new(0, 0));
    line.extend(Point::new(6, 0), 5);
    line.extend(Point::new(3, 0), 5);
    line.extend(Point::new(0, 0), 5);
    line.extend(Point::new(6, 6), 5);
    assert_eq!(
        line.points(),
        vec![Point::new(0, 0), Point::new(6, 0), Point::new(0, 0), Point::new(0 + 6, 6)]
    );
}

#[test]
fn extend_with_the_same_point_many_times() {
    let mut once = DrawnLine::new(Point::new(0, 0));
    once.extend(Point::new(10, 0), 5);
    let mut many = DrawnLine::new(Point::new(0, 0));
    let mut i: u32 = 0;
    while i < 50 {
        many.extend(Point::new(10, 0), 5);
        i += 1;
    }
    assert_eq!(many, once);
    assert_eq!(many.points().len(), 2);
}

#[test]
fn extend_with_the_same_near_point_many_times() {
    let mut line = DrawnLine::new(Point::new(0, 0));
    let mut i: u32 = 0;
    while i < 50 {
        line.extend(Point::new(1, 1), 2);
        i += 1;
    }
    assert_eq!(line.points(), vec![Point::new(0, 0)]);
}

#[test]
fn extend_never_removes_points() {
    let candidates = [
        Point::new(1, 0),
        Point::new(9, 9),
        Point::new(9, 10),
        Point::new(-20, 4),
        Point::new(-20, 4),
        Point::new(0, 0),
    ];
    let mut line = DrawnLine::new(Point::new(0, 0));
    for c in candidates.iter() {
        let before = line.points();
        line.extend(*c, 3);
        let after = line.points();
        assert!(after.len() >= before.len());
        assert!(after.len() <= before.len() + 1);
        assert_eq!(&after[..before.len()], &before[..]);
    }
    assert_eq!(
        line.points(),
        vec![Point::new(0, 0), Point::new(9, 9), Point::new(-20, 4), Point::new(0, 0)]
    );
}

#[test]
fn extend_with_threshold_zero_keeps_every_new_position() {
    let mut line = DrawnLine::new(Point::new(0, 0));
    line.extend(Point::new(0, 0), 0);
    line.extend(Point::new(1, 0), 0);
    line.extend(Point::new(1, 0), 0);
    line.extend(Point::new(1, 1), 0);
    assert_eq!(line.points(), vec![Point::new(0, 0), Point::new(1, 0), Point::new(1, 1)]);
}

#[test]
fn kept_points_are_farther_apart_than_the_threshold() {
    let mut line = DrawnLine::new(Point::new(0, 0));
    let mut x: i32 = 0;
    while x < 40 {
        line.extend(Point::new(x, x / 2), 4);
        x += 1;
    }
    let points = line.points();
    assert!(points.len() > 2);
    let mut i: usize = 1;
    while i < points.len() {
        let dx: i64 = (points[i].x - points[i - 1].x) as i64;
        let dy: i64 = (points[i].y - points[i - 1].y) as i64;
        assert!(dx * dx + dy * dy > 16);
        i += 1;
    }
}

#[test]
fn mouse_move_onto_the_origin_shows_a_dot() {
    let mut line = DrawnLine::new(Point::new(10, 10));
    let shape = line.notify_mouse_move(Point::new(10, 10), 2);
    assert_eq!(shape, Shape::Circle(Point::new(10, 10)));
    assert_eq!(line.points(), vec![Point::new(10, 10)]);
}

#[test]
fn mouse_move_near_the_origin_shows_a_segment_to_the_pointer() {
    let mut line = DrawnLine::new(Point::new(10, 10));
    let shape = line.notify_mouse_move(Point::new(11, 10), 2);
    assert_eq!(shape, Shape::Line(vec![Point::new(10, 10), Point::new(11, 10)]));
    assert_eq!(line.points(), vec![Point::new(10, 10)]);
}

#[test]
fn mouse_move_beyond_the_threshold_shows_the_line() {
    let mut line = DrawnLine::new(Point::new(10, 10));
    let shape = line.notify_mouse_move(Point::new(13, 10), 2);
    assert_eq!(shape, Shape::Line(vec![Point::new(10, 10), Point::new(13, 10)]));
    assert_eq!(line.points(), vec![Point::new(10, 10), Point::new(13, 10)]);
    let shape = line.notify_mouse_move(Point::new(14, 10), 2);
    assert_eq!(shape, Shape::Line(vec![Point::new(10, 10), Point::new(13, 10)]));
    let shape = line.notify_mouse_move(Point::new(13, 20), 2);
    assert_eq!(
        shape,
        Shape::Line(vec![Point::new(10, 10), Point::new(13, 10), Point::new(13, 20)])
    );
}

#[test]
fn shape_of_a_single_point_is_a_dot() {
    let line = DrawnLine::new(Point::new(-1, 4));
    assert_eq!(line.shape(), Shape::Circle(Point::new(-1, 4)));
}

#[test]
fn shape_of_several_points_is_a_line() {
    let mut line = DrawnLine::new(Point::new(0, 0));
    line.extend(Point::new(0, 9), 1);
    line.extend(Point::new(9, 9), 1);
    assert_eq!(
        line.shape(),
        Shape::Line(vec![Point::new(0, 0), Point::new(0, 9), Point::new(9, 9)])
    );
}

#[test]
fn finish_hands_out_the_points_unchanged() {
    let mut line = DrawnLine::new(Point::new(0, 0));
    line.extend(Point::new(10, 0), 5);
    line.extend(Point::new(10, 1), 5);
    let kept = line.points();
    assert_eq!(line.finish(), kept);
    assert_eq!(kept, vec![Point::new(0, 0), Point::new(10, 0)]);
}

#[test]
fn finish_of_an_untouched_line_is_its_origin() {
    assert_eq!(DrawnLine::new(Point::new(10, 10)).finish(), vec![Point::new(10, 10)]);
}

#[test]
fn bounding_rect_of_a_line() {
    let mut line = DrawnLine::new(Point::new(0, 2));
    line.extend(Point::new(2, 1), 0);
    line.extend(Point::new(3, 0), 0);
    line.extend(Point::new(2, 3), 0);
    assert_eq!(
        line.bounding_rect(),
        BoundingRect::new(Point::new(0, 0), Point::new(3, 3))
    );
}

#[test]
fn bounding_rect_of_a_dot() {
    let line = DrawnLine::new(Point::new(5, 6));
    assert_eq!(
        line.bounding_rect(),
        BoundingRect::new(Point::new(5, 6), Point::new(5, 6))
    );
}
