use transit_radar::geometry::{Geometry, Path, PathTo};

struct Grid;

impl Geometry for Grid {
    type Coords = (i32, i32);
}

fn describe(op: &PathTo<Grid>) -> String {
    match op {
        PathTo::Move((x, y)) => format!("M {} {}", x, y),
        PathTo::Line((x, y)) => format!("L {} {}", x, y),
        PathTo::BezierCurve((a, b), (c, d), (e, f)) => format!("C {} {} {} {} {} {}", a, b, c, d, e, f),
    }
}

#[test]
fn paths_keep_their_steps_in_order() {
    let mut path: Path<Grid> = Path::begin_path();
    assert!(path.class.is_empty());
    assert!(path.ops.is_empty());
    path.set_class("route-u".to_string());
    path.move_to((0, 0));
    path.line_to((3, 4));
    path.bezier_curve_to((4, 4), (5, 6), (7, 8));
    assert_eq!(path.class, "route-u");
    let steps: Vec<String> = path.ops.iter().map(describe).collect();
    assert_eq!(steps, vec!["M 0 0", "L 3 4", "C 4 4 5 6 7 8"]);
}
