use polyanya::helpers::{distance_between, mirror, Point};
use polyanya::mesh::{Mesh, Polygon, Vertex, OUTSIDE};
use polyanya::node::{Path, SearchNode};

fn fx(v: f32) -> i64 {
    (v as f64 * 1e6).round() as i64
}

fn pt(p: [f32; 2]) -> Point {
    Point::new(fx(p[0]), fx(p[1]))
}

fn seg(i: [[f32; 2]; 2]) -> [Point; 2] {
    [pt(i[0]), pt(i[1])]
}

fn pts(points: Vec<[f32; 2]>) -> Vec<Point> {
    points.into_iter().map(pt).collect()
}

fn assert_delta(val: i64, expected: i64) {
    if !((val - expected).abs() < 10_000) {
        assert_eq!(val, expected);
    }
}

fn mesh_u_grid() -> Mesh {
    Mesh {
        vertices: vec![
            Vertex::new(0, 0, vec![0, -1]),
            Vertex::new(1, 0, vec![0, 1, -1]),
            Vertex::new(2, 0, vec![1, 2, -1]),
            Vertex::new(3, 0, vec![2, -1]),
            Vertex::new(0, 1, vec![3, 0, -1]),
            Vertex::new(1, 1, vec![3, 1, 0, -1]),
            Vertex::new(2, 1, vec![4, 2, 1, -1]),
            Vertex::new(3, 1, vec![4, 2, -1]),
            Vertex::new(0, 2, vec![3, -1]),
            Vertex::new(1, 2, vec![3, -1]),
            Vertex::new(2, 2, vec![4, -1]),
            Vertex::new(3, 2, vec![4, -1]),
        ],
        polygons: vec![
            Polygon::new(4, vec![0, 1, 5, 4, -1, 1, 3, -1]),
            Polygon::new(4, vec![1, 2, 6, 5, -1, 2, -1, 0]),
            Polygon::new(4, vec![2, 3, 7, 6, -1, -1, 4, 1]),
            Polygon::new(4, vec![4, 5, 9, 8, 0, -1, -1, -1]),
            Polygon::new(4, vec![6, 7, 11, 10, 2, -1, -1, -1]),
        ],
    }
}

#[test]
fn point_in_polygon() {
    let mesh = mesh_u_grid();
    assert!(mesh.is_well_formed());
    assert_eq!(mesh.point_in_polygon(pt([0.5, 0.5])), 0);
    assert_eq!(mesh.point_in_polygon(pt([1.5, 0.5])), 1);
    assert_eq!(mesh.point_in_polygon(pt([0.5, 1.5])), 3);
    assert_eq!(mesh.point_in_polygon(pt([1.5, 1.5])), usize::MAX);
    assert_eq!(mesh.point_in_polygon(pt([2.5, 1.5])), 4);
    assert_eq!(OUTSIDE, usize::MAX);
}

#[test]
fn successors_straight_line_ahead() {
    let mesh = mesh_u_grid();

    let from = pt([0.1, 0.1]);
    let to = pt([2.9, 0.9]);
    let search_node = SearchNode {
        path: vec![],
        r: from,
        i: seg([[1.0, 0.0], [1.0, 1.0]]),
        i_index: [1, 5],
        polygon_from: mesh.point_in_polygon(from) as isize,
        polygon_to: 1,
        f: 0,
        g: distance_between(from, to),
    };
    let successors = mesh.successors(search_node, to);
    assert_eq!(successors.len(), 1);
    assert_eq!(successors[0].r, from);
    assert_eq!(successors[0].f, 0);
    assert_eq!(successors[0].g, distance_between(from, to));
    assert_eq!(successors[0].polygon_from, 1);
    assert_eq!(successors[0].polygon_to, 2);
    assert_eq!(successors[0].i, seg([[2.0, 0.0], [2.0, 1.0]]));
    assert_eq!(successors[0].i_index, [2, 6]);

    assert_eq!(successors[0].path, Vec::<Point>::new());

    assert_eq!(
        mesh.path(from, to),
        Path {
            path: vec![to],
            len: distance_between(from, to)
        }
    );
}

#[test]
fn successors_straight_line_reversed() {
    let mesh = mesh_u_grid();

    let to = pt([0.1, 0.1]);
    let from = pt([2.9, 0.9]);
    let search_node = SearchNode {
        path: vec![],
        r: from,
        i: seg([[2.0, 1.0], [2.0, 0.0]]),
        i_index: [6, 2],
        polygon_from: mesh.point_in_polygon(from) as isize,
        polygon_to: 1,
        f: 0,
        g: distance_between(from, to),
    };
    let successors = mesh.successors(search_node, to);
    assert_eq!(successors.len(), 1);
    assert_eq!(successors[0].r, from);
    assert_eq!(successors[0].f, 0);
    assert_eq!(successors[0].g, distance_between(to, from));
    assert_eq!(successors[0].polygon_from, 1);
    assert_eq!(successors[0].polygon_to, 0);
    assert_eq!(successors[0].i, seg([[1.0, 1.0], [1.0, 0.0]]));
    assert_eq!(successors[0].i_index, [5, 1]);
    assert_eq!(successors[0].path, Vec::<Point>::new());

    assert_eq!(
        mesh.path(from, to),
        Path {
            path: vec![to],
            len: distance_between(from, to)
        }
    );
}

#[test]
fn successors_corner_first_step() {
    let mesh = mesh_u_grid();

    let from = pt([0.1, 1.9]);
    let to = pt([2.1, 1.9]);
    let search_node = SearchNode {
        path: vec![],
        r: from,
        i: seg([[0.0, 1.0], [1.0, 1.0]]),
        i_index: [4, 5],
        polygon_from: mesh.point_in_polygon(from) as isize,
        polygon_to: 0,
        f: 0,
        g: distance_between(from, to),
    };
    let successors = mesh.successors(search_node, to);
    assert_eq!(successors.len(), 1);
    assert_eq!(successors[0].r, pt([2.0, 1.0]));
    assert_eq!(
        successors[0].f,
        distance_between(from, pt([1.0, 1.0])) + distance_between(pt([1.0, 1.0]), pt([2.0, 1.0]))
    );
    assert_eq!(successors[0].g, distance_between(pt([2.0, 1.0]), to));
    assert_eq!(successors[0].polygon_from, 2);
    assert_eq!(successors[0].polygon_to, 4);
    assert_eq!(successors[0].i, seg([[3.0, 1.0], [2.0, 1.0]]));
    assert_eq!(successors[0].i_index, [7, 6]);
    assert_eq!(successors[0].path, vec![from, pt([1.0, 1.0])]);

    assert_eq!(
        mesh.path(from, to),
        Path {
            path: pts(vec![[1.0, 1.0], [2.0, 1.0], [2.1, 1.9]]),
            len: distance_between(from, pt([1.0, 1.0]))
                + distance_between(pt([1.0, 1.0]), pt([2.0, 1.0]))
                + distance_between(pt([2.0, 1.0]), to)
        }
    );
}

#[test]
fn successors_corner_observable_second_step() {
    let mesh = mesh_u_grid();

    let from = pt([0.1, 1.9]);
    let to = pt([2.1, 1.9]);
    let search_node = SearchNode {
        path: vec![],
        r: from,
        i: seg([[1.0, 0.0], [1.0, 1.0]]),
        i_index: [1, 5],

        polygon_from: 0,
        polygon_to: 1,
        f: 0,
        g: distance_between(from, to),
    };
    let successors = mesh.successors(search_node, to);
    assert_eq!(successors.len(), 1);
    assert_eq!(successors[0].r, pt([2.0, 1.0]));
    assert_eq!(
        successors[0].f,
        distance_between(from, pt([1.0, 1.0])) + distance_between(pt([1.0, 1.0]), pt([2.0, 1.0]))
    );
    assert_eq!(successors[0].g, distance_between(pt([2.0, 1.0]), to));
    assert_eq!(successors[0].polygon_from, 2);
    assert_eq!(successors[0].polygon_to, 4);
    assert_eq!(successors[0].i, seg([[3.0, 1.0], [2.0, 1.0]]));
    assert_eq!(successors[0].i_index, [7, 6]);
    assert_eq!(successors[0].path, vec![from, pt([1.0, 1.0])]);

    assert_eq!(
        mesh.path(from, to),
        Path {
            path: pts(vec![[1.0, 1.0], [2.0, 1.0], [2.1, 1.9]]),
            len: distance_between(from, pt([1.0, 1.0]))
                + distance_between(pt([1.0, 1.0]), pt([2.0, 1.0]))
                + distance_between(pt([2.0, 1.0]), to)
        }
    );
}

fn mesh_from_paper() -> Mesh {
    Mesh {
        vertices: vec![
            Vertex::new(0, 6, vec![0, -1]),           // 0
            Vertex::new(2, 5, vec![0, -1, 2]),        // 1
            Vertex::new(5, 7, vec![0, 2, -1]),        // 2
            Vertex::new(5, 8, vec![0, -1]),           // 3
            Vertex::new(0, 8, vec![0, -1]),           // 4
            Vertex::new(1, 4, vec![1, -1]),           // 5
            Vertex::new(2, 1, vec![1, -1]),           // 6
            Vertex::new(4, 1, vec![1, -1]),           // 7
            Vertex::new(4, 2, vec![1, -1, 2]),        // 8
            Vertex::new(2, 4, vec![1, 2, -1]),        // 9
            Vertex::new(7, 4, vec![2, -1, 4]),        // 10
            Vertex::new(10, 7, vec![2, 4, 6, -1, 3]), // 11
            Vertex::new(7, 7, vec![2, 3, -1]),        // 12
            Vertex::new(11, 8, vec![3, -1]),          // 13
            Vertex::new(7, 8, vec![3, -1]),           // 14
            Vertex::new(7, 0, vec![5, 4, -1]),        // 15
            Vertex::new(11, 3, vec![4, 5, -1]),       // 16
            Vertex::new(11, 5, vec![4, -1, 6]),       // 17
            Vertex::new(12, 0, vec![5, -1]),          // 18
            Vertex::new(12, 3, vec![5, -1]),          // 19
            Vertex::new(13, 5, vec![6, -1]),          // 20
            Vertex::new(13, 7, vec![6, -1]),          // 21
            Vertex::new(1, 3, vec![1, -1]),           // 22
        ],
        polygons: vec![
            Polygon::new(5, vec![0, 1, 2, 3, 4, -1, -1, 2, -1, -1]),
            Polygon::new(6, vec![5, 22, 6, 7, 8, 9, -1, -1, -1, -1, 2, -1]),
            Polygon::new(7, vec![1, 9, 8, 10, 11, 12, 2, -1, 1, -1, 4, 3, -1, 0]),
            Polygon::new(4, vec![12, 11, 13, 14, 2, -1, -1, -1]),
            Polygon::new(5, vec![10, 15, 16, 17, 11, -1, 5, -1, 6, 2]),
            Polygon::new(4, vec![15, 18, 19, 16, -1, -1, -1, 4]),
            Polygon::new(4, vec![11, 17, 20, 21, 4, -1, -1, -1]),
        ],
    }
}

#[test]
fn paper_straight() {
    let mesh = mesh_from_paper();
    assert!(mesh.is_well_formed());

    let from = pt([12.0, 0.0]);
    let to = pt([7.0, 6.9]);
    let search_node = SearchNode {
        path: vec![],
        r: from,
        i: seg([[11.0, 3.0], [7.0, 0.0]]),
        i_index: [16, 15],
        polygon_from: mesh.point_in_polygon(from) as isize,
        polygon_to: 4,
        f: 0,
        g: distance_between(from, to),
    };
    let successors = mesh.successors(search_node, to);
    assert_eq!(successors.len(), 2);

    assert_eq!(successors[1].r, pt([11.0, 3.0]));
    assert_eq!(successors[1].f, distance_between(from, pt([11.0, 3.0])));
    assert_eq!(
        successors[1].g,
        distance_between(pt([11.0, 3.0]), pt([9.75, 6.75])) + distance_between(pt([9.75, 6.75]), to)
    );
    assert_eq!(successors[1].polygon_from, 4);
    assert_eq!(successors[1].polygon_to, 2);
    assert_eq!(successors[1].i, seg([[10.0, 7.0], [9.75, 6.75]]));
    assert_eq!(successors[1].i_index, [11, 10]);
    assert_eq!(successors[1].path, vec![from]);

    assert_eq!(successors[0].r, from);
    assert_eq!(successors[0].f, 0);
    assert_eq!(successors[0].g, distance_between(from, to));
    assert_eq!(successors[0].polygon_from, 4);
    assert_eq!(successors[0].polygon_to, 2);
    assert_eq!(successors[0].i, seg([[9.75, 6.75], [7.0, 4.0]]));
    assert_eq!(successors[0].i_index, [11, 10]);
    assert_eq!(successors[0].path, Vec::<Point>::new());

    assert_eq!(mesh.path(from, to).len, distance_between(from, to));
    assert_eq!(mesh.path(from, to).path, vec![to]);
}

#[test]
fn paper_corner_right() {
    let mesh = mesh_from_paper();

    let from = pt([12.0, 0.0]);
    let to = pt([13.0, 6.0]);
    let search_node = SearchNode {
        path: vec![],
        r: from,
        i: seg([[11.0, 3.0], [7.0, 0.0]]),
        i_index: [16, 15],
        polygon_from: mesh.point_in_polygon(from) as isize,
        polygon_to: 4,
        f: 0,
        g: distance_between(from, to),
    };
    let successors = mesh.successors(search_node, to);
    assert_eq!(successors.len(), 3);

    assert_eq!(successors[0].r, pt([11.0, 3.0]));
    assert_eq!(successors[0].f, distance_between(from, pt([11.0, 3.0])));
    assert_eq!(
        successors[0].g,
        distance_between(pt([11.0, 3.0]), pt([11.0, 5.0])) + distance_between(pt([11.0, 5.0]), to)
    );
    assert_eq!(successors[0].polygon_from, 4);
    assert_eq!(successors[0].polygon_to, 6);
    assert_eq!(successors[0].i, seg([[11.0, 5.0], [10.0, 7.0]]));
    assert_eq!(successors[0].i_index, [17, 11]);
    assert_eq!(successors[0].path, vec![from]);

    assert_eq!(successors[1].r, pt([11.0, 3.0]));
    assert_eq!(successors[1].f, distance_between(from, pt([11.0, 3.0])));
    assert_eq!(
        successors[1].g,
        distance_between(
            pt([11.0, 3.0]),
            mirror(to, seg([[10.0, 7.0], [9.75, 6.75]])).unwrap()
        )
    );
    assert_eq!(successors[1].polygon_from, 4);
    assert_eq!(successors[1].polygon_to, 2);
    assert_eq!(successors[1].i, seg([[10.0, 7.0], [9.75, 6.75]]));
    assert_eq!(successors[1].i_index, [11, 10]);
    assert_eq!(successors[1].path, vec![from]);

    assert_eq!(successors[2].r, from);
    assert_eq!(successors[2].f, 0);
    assert_eq!(
        successors[2].g,
        distance_between(from, pt([9.75, 6.75]))
            + distance_between(
                pt([9.75, 6.75]),
                mirror(to, seg([[9.75, 6.75], [7.0, 4.0]])).unwrap()
            )
    );
    assert_eq!(successors[2].polygon_from, 4);
    assert_eq!(successors[2].polygon_to, 2);
    assert_eq!(successors[2].i, seg([[9.75, 6.75], [7.0, 4.0]]));
    assert_eq!(successors[2].i_index, [11, 10]);
    assert_eq!(successors[2].path, Vec::<Point>::new());

    assert_delta(
        mesh.path(from, to).len,
        distance_between(from, pt([11.0, 3.0]))
            + distance_between(pt([11.0, 3.0]), pt([11.0, 5.0]))
            + distance_between(pt([11.0, 5.0]), to),
    );
    assert_eq!(
        mesh.path(from, to).path,
        pts(vec![[11.0, 3.0], [11.0, 5.0], [13.0, 6.0]])
    );
}

#[test]
fn paper_corner_left() {
    let mesh = mesh_from_paper();

    let from = pt([12.0, 0.0]);
    let to = pt([5.0, 3.0]);
    let search_node = SearchNode {
        path: vec![],
        r: from,
        i: seg([[11.0, 3.0], [7.0, 0.0]]),
        i_index: [16, 15],
        polygon_from: mesh.point_in_polygon(from) as isize,
        polygon_to: 4,
        f: 0,
        g: distance_between(from, to),
    };
    let successors = mesh.successors(search_node, to);
    assert_eq!(successors.len(), 2);

    assert_eq!(successors[1].r, pt([11.0, 3.0]));
    assert_eq!(successors[1].f, distance_between(from, pt([11.0, 3.0])));
    assert_eq!(
        successors[1].g,
        distance_between(pt([11.0, 3.0]), pt([9.75, 6.75])) + distance_between(pt([9.75, 6.75]), to)
    );
    assert_eq!(successors[1].polygon_from, 4);
    assert_eq!(successors[1].polygon_to, 2);
    assert_eq!(successors[1].i, seg([[10.0, 7.0], [9.75, 6.75]]));
    assert_eq!(successors[1].i_index, [11, 10]);
    assert_eq!(successors[1].path, vec![from]);

    assert_eq!(successors[0].r, from);
    assert_eq!(successors[0].f, 0);
    assert_eq!(
        successors[0].g,
        distance_between(from, pt([7.0, 4.0])) + distance_between(pt([7.0, 4.0]), to)
    );
    assert_eq!(successors[0].polygon_from, 4);
    assert_eq!(successors[0].polygon_to, 2);
    assert_eq!(successors[0].i, seg([[9.75, 6.75], [7.0, 4.0]]));
    assert_eq!(successors[0].i_index, [11, 10]);
    assert_eq!(successors[0].path, Vec::<Point>::new());

    assert_delta(
        mesh.path(from, to).len,
        distance_between(from, pt([7.0, 4.0])) + distance_between(pt([7.0, 4.0]), to),
    );
    assert_eq!(mesh.path(from, to).path, pts(vec![[7.0, 4.0], [5.0, 3.0]]));
}

#[test]
fn paper_corner_left_twice() {
    let mesh = mesh_from_paper();

    let from = pt([12.0, 0.0]);
    let to = pt([3.0, 1.0]);
    let search_node = SearchNode {
        path: vec![],
        r: from,
        i: seg([[11.0, 3.0], [7.0, 0.0]]),
        i_index: [16, 15],
        polygon_from: mesh.point_in_polygon(from) as isize,
        polygon_to: 4,
        f: 0,
        g: distance_between(from, to),
    };
    let successors = mesh.successors(search_node, to);
    assert_eq!(successors.len(), 2);

    assert_eq!(successors[1].r, pt([11.0, 3.0]));
    assert_eq!(successors[1].f, distance_between(from, pt([11.0, 3.0])));
    assert_eq!(
        successors[1].g,
        distance_between(pt([11.0, 3.0]), pt([9.75, 6.75])) + distance_between(pt([9.75, 6.75]), to)
    );
    assert_eq!(successors[1].polygon_from, 4);
    assert_eq!(successors[1].polygon_to, 2);
    assert_eq!(successors[1].i, seg([[10.0, 7.0], [9.75, 6.75]]));
    assert_eq!(successors[1].i_index, [11, 10]);
    assert_eq!(successors[1].path, vec![from]);

    assert_eq!(successors[0].r, from);
    assert_eq!(successors[0].f, 0);
    assert_eq!(
        successors[0].g,
        distance_between(from, pt([7.0, 4.0])) + distance_between(pt([7.0, 4.0]), to)
    );
    assert_eq!(successors[0].polygon_from, 4);
    assert_eq!(successors[0].polygon_to, 2);
    assert_eq!(successors[0].i, seg([[9.75, 6.75], [7.0, 4.0]]));
    assert_eq!(successors[0].i_index, [11, 10]);
    assert_eq!(successors[0].path, Vec::<Point>::new());

    let successor = successors.into_iter().next().unwrap();
    let successors = mesh.successors(successor, to);
    assert_eq!(successors.len(), 1);

    assert_delta(
        mesh.path(from, to).len,
        distance_between(from, pt([7.0, 4.0]))
            + distance_between(pt([7.0, 4.0]), pt([4.0, 2.0]))
            + distance_between(pt([4.0, 2.0]), to),
    );

    assert_eq!(
        mesh.path(from, to).path,
        pts(vec![[7.0, 4.0], [4.0, 2.0], [3.0, 1.0]])
    );
}

#[test]
fn edges_between_simple() {
    let mesh = mesh_from_paper();

    let from = pt([12.0, 0.0]);
    let to = pt([3.0, 1.0]);
    let search_node = SearchNode {
        path: vec![],
        r: from,
        i: seg([[11.0, 3.0], [7.0, 0.0]]),
        i_index: [16, 15],
        polygon_from: mesh.point_in_polygon(from) as isize,
        polygon_to: 4,
        f: 0,
        g: distance_between(from, to),
    };

    let successors = mesh.edges_between(&search_node);

    for successor in &successors {
        println!("{:?}", successor);
    }

    println!("=========================");

    let search_node = SearchNode {
        path: vec![],
        r: from,
        i: seg([[9.75, 6.75], [7.0, 4.0]]),
        i_index: [11, 10],
        polygon_from: 4,
        polygon_to: 2,
        f: 0,
        g: distance_between(from, to),
    };

    let successors = mesh.edges_between(&search_node);

    for successor in &successors {
        println!("{:?}", successor);
    }

    println!("=========================");

    let search_node = SearchNode {
        path: vec![],
        r: pt([11.0, 3.0]),
        i: seg([[10.0, 7.0], [7.0, 4.0]]),
        i_index: [11, 10],
        polygon_from: 4,
        polygon_to: 2,
        f: 0,
        g: distance_between(from, to),
    };

    let successors = mesh.edges_between(&search_node);

    for successor in &successors {
        println!("{:?}", successor);
    }
}

#[test]
fn edges_between_simple_u() {
    let mesh = mesh_u_grid();

    let search_node = SearchNode {
        path: vec![],
        r: pt([0.0, 0.0]),
        i: seg([[1.0, 0.0], [1.0, 1.0]]),
        i_index: [1, 5],
        polygon_from: 0,
        polygon_to: 1,
        f: 0,
        g: fx(1.0),
    };

    let successors = mesh.edges_between(&search_node);

    for successor in &successors {
        println!("{:?}", successor);
    }
}
