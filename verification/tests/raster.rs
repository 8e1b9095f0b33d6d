use training::raster::draw::{draw, draw_boxed, draw_generic};
use training::raster::{Canvas, GenericPixmap, LineRasterizer, Pixmap, Vec3};

fn walk(from: Vec3, to: Vec3) -> Vec<Vec3> {
    let mut rasterizer = LineRasterizer::new(from, to);
    let mut points = Vec::new();
    loop {
        assert!(rasterizer.ready());
        match rasterizer.next_point() {
            Some(point) => points.push(point),
            None => break,
        }
        assert!(points.len() <= 1000);
    }
    assert_eq!(rasterizer.next_point(), None);
    points
}

fn p(x: i32, y: i32, z: i32) -> Vec3 {
    Vec3 { x, y, z }
}

#[test]
fn walk_along_a_short_line() {
    let points = walk(p(0, 0, 0), p(10, 5, -4));
    assert_eq!(
        points,
        vec![
            p(0, 0, 0),
            p(1, 0, 0),
            p(2, 1, 0),
            p(3, 1, -1),
            p(4, 2, -2),
            p(5, 2, -2),
            p(6, 3, -2),
            p(7, 4, -3),
            p(8, 4, -4),
            p(9, 5, -4),
            p(10, 5, -4),
        ]
    );
}

#[test]
fn walk_starts_and_ends_where_it_should() {
    for (from, to) in [
        (p(0, 0, 0), p(50, 55, -20)),
        (p(3, -7, 2), p(-4, -7, 9)),
        (p(1, 1, 1), p(1, 1, 9)),
        (p(5, 4, 3), p(0, 0, 0)),
    ] {
        let points = walk(from, to);
        let steps = (0..3)
            .map(|i| (to[i] - from[i]).abs())
            .max()
            .unwrap() as usize;
        assert_eq!(points.len(), steps + 1);
        assert_eq!(points[0], from);
        assert_eq!(points[steps], to);
        for pair in points.windows(2) {
            for i in 0..3 {
                assert!((pair[1][i] - pair[0][i]).abs() <= 1);
                assert!((to[i] - pair[1][i]).abs() <= (to[i] - pair[0][i]).abs());
            }
        }
    }
}

#[test]
fn walk_to_the_same_point() {
    assert_eq!(walk(p(2, 3, 4), p(2, 3, 4)), vec![p(2, 3, 4)]);
}

#[test]
fn first_point_sets_the_state() {
    let mut rasterizer = LineRasterizer::new(p(0, 0, 0), p(-2, 7, 7));
    assert!(rasterizer.state.is_none());
    assert_eq!(rasterizer.next_point(), Some(p(0, 0, 0)));
    let state = rasterizer.state.unwrap();
    assert_eq!(state.step, p(-1, 1, 1));
    assert_eq!(state.d, p(0, 0, 0));
    assert_eq!(state.major_axis, 1);
    let mut flat = LineRasterizer::new(p(1, 1, 1), p(1, 1, 1));
    assert_eq!(flat.next_point(), Some(p(1, 1, 1)));
    assert_eq!(flat.state.unwrap().major_axis, 0);
    assert_eq!(flat.state.unwrap().step, p(-1, -1, -1));
}

#[test]
fn vec3_index_and_set() {
    let mut v = p(7, 8, 9);
    assert_eq!(v[0], 7);
    assert_eq!(v[1], 8);
    assert_eq!(v[2], 9);
    v.set(1, -8);
    assert_eq!(v, p(7, -8, 9));
    v.set(0, 1);
    v.set(2, 3);
    assert_eq!(v, p(1, -8, 3));
}

#[test]
fn pixmap_rows_and_pixels() {
    let mut map: Pixmap = GenericPixmap::new(3, 2, 0);
    assert_eq!(map.w, 3);
    assert_eq!(map.h, 2);
    assert_eq!(map.data, vec![0; 6]);
    map.set_pixel(1, 2, 9);
    map.set_pixel(0, 1, 4);
    assert_eq!(map.data, vec![0, 4, 0, 0, 0, 9]);
    assert_eq!(map.row(0), &[0, 4, 0]);
    assert_eq!(map.row(1), &[0, 0, 9]);
}

fn drawn_sample() -> Vec<(usize, usize)> {
    walk(p(0, 0, 0), p(50, 55, -20))
        .into_iter()
        .map(|v| (v.x as usize, v.y as usize))
        .collect()
}

fn check_drawing(map: &Pixmap) {
    let on_line = drawn_sample();
    assert_eq!(on_line.len(), 56);
    assert!(on_line.contains(&(0, 0)));
    assert!(on_line.contains(&(50, 55)));
    for x in 0..map.h {
        for y in 0..map.w {
            let expected = if on_line.contains(&(x, y)) { u32::MAX } else { 7 };
            assert_eq!(map.row(x)[y], expected);
        }
    }
}

#[test]
fn draw_generic_draws_the_line() {
    let mut map: Pixmap = GenericPixmap::new(60, 52, 7);
    draw_generic(&mut map);
    check_drawing(&map);
}

#[test]
fn draw_draws_the_line() {
    let mut map: Pixmap = GenericPixmap::new(56, 51, 7);
    draw(&mut map);
    check_drawing(&map);
}

#[test]
fn draw_boxed_takes_a_boxed_pixmap() {
    let map: Pixmap = GenericPixmap::new(56, 51, 7);
    let mut boxed: Box<dyn Canvas> = Box::new(map);
    draw_boxed(&mut boxed);
    boxed.set_pixel(50, 55, 1);
}

#[test]
fn walk_far_from_the_origin() {
    let points = walk(p(2000000000, -2000000000, 7), p(2000000005, -2000000003, 7));
    assert_eq!(
        points,
        vec![
            p(2000000000, -2000000000, 7),
            p(2000000001, -2000000000, 7),
            p(2000000002, -2000000001, 7),
            p(2000000003, -2000000002, 7),
            p(2000000004, -2000000003, 7),
            p(2000000005, -2000000003, 7),
        ]
    );
}

#[test]
fn ready_tells_whether_the_next_call_overflows() {
    // a span that an `i32` can hold, along one axis
    let mut long = LineRasterizer::new(p(-1000000000, 0, 0), p(1100000000, 0, 0));
    assert!(long.ready());
    assert_eq!(long.next_point(), Some(p(-1000000000, 0, 0)));
    assert_eq!(long.state.unwrap().major_axis, 0);
    assert!(long.ready());
    assert_eq!(long.next_point(), Some(p(-999999999, 0, 0)));
    assert!(long.ready());

    // a span that no `i32` can hold
    assert!(!LineRasterizer::new(p(i32::MIN, 0, 0), p(0, 0, 0)).ready());
    assert!(!LineRasterizer::new(p(0, -2, 0), p(0, i32::MAX, 0)).ready());
    assert!(LineRasterizer::new(p(0, -1, 0), p(0, i32::MAX - 1, 0)).ready());

    // what adds up along the second axis overflows at the third call
    let mut steep = LineRasterizer::new(p(0, 0, 0), p(i32::MAX, i32::MAX - 1, 0));
    assert!(steep.ready());
    assert_eq!(steep.next_point(), Some(p(0, 0, 0)));
    assert!(steep.ready());
    assert_eq!(steep.next_point(), Some(p(1, 0, 0)));
    assert_eq!(steep.state.unwrap().d, p(0, i32::MAX - 1, 0));
    assert!(!steep.ready());

    // a walk at its end computes nothing
    let mut done = LineRasterizer::new(p(3, 3, 3), p(3, 3, 3));
    assert!(done.ready());
    assert_eq!(done.next_point(), Some(p(3, 3, 3)));
    assert!(done.ready());
    assert_eq!(done.next_point(), None);
    assert!(done.ready());
}

#[test]
fn walk_goes_one_along_the_major_axis() {
    let (from, to) = (p(4, -9, 30), p(-20, 3, 31));
    let points = walk(from, to);
    assert_eq!(points.len(), 25);
    for pair in points.windows(2) {
        assert_eq!(pair[1].x, pair[0].x - 1);
        assert!(pair[1].y == pair[0].y || pair[1].y == pair[0].y + 1);
        assert!(pair[1].z == pair[0].z || pair[1].z == pair[0].z + 1);
    }
    assert_eq!(points[24], to);
}
