use alacritty_panes::binary32::Binary32;
use alacritty_panes::bounds::{PaneBounds, SplitDirection};
use alacritty_panes::layout::{PaneId, PaneLayout};

fn num(value: f32) -> Binary32 {
    Binary32::from_bits(value.to_bits())
}

fn float(value: Binary32) -> f32 {
    f32::from_bits(value.to_bits())
}

fn rect(x: f32, y: f32, width: f32, height: f32) -> PaneBounds {
    PaneBounds { x: num(x), y: num(y), width: num(width), height: num(height) }
}

fn leaf(id: u64) -> Box<PaneLayout> {
    Box::new(PaneLayout::Leaf(PaneId::new(id)))
}

fn node(
    direction: SplitDirection,
    ratio: f32,
    first: Box<PaneLayout>,
    second: Box<PaneLayout>,
) -> PaneLayout {
    PaneLayout::Split { direction, ratio: num(ratio), first, second }
}

fn make_2x2_grid() -> PaneLayout {
    // Split(V, 0.5, Split(H, 0.5, TL, BL), Split(H, 0.5, TR, BR))
    let left = node(SplitDirection::Horizontal, 0.5, leaf(1), leaf(2));
    let right = node(SplitDirection::Horizontal, 0.5, leaf(3), leaf(4));
    node(SplitDirection::Vertical, 0.5, Box::new(left), Box::new(right))
}

fn make_2x2_grid_h_root() -> PaneLayout {
    // Split(H, 0.5, Split(V, 0.5, TL, TR), Split(V, 0.5, BL, BR))
    let top = node(SplitDirection::Vertical, 0.5, leaf(1), leaf(2));
    let bottom = node(SplitDirection::Vertical, 0.5, leaf(3), leaf(4));
    node(SplitDirection::Horizontal, 0.5, Box::new(top), Box::new(bottom))
}

#[test]
fn test_corners_at_2x2_grid() {
    let layout = make_2x2_grid();
    let bounds = rect(0., 0., 800., 600.);
    let border = num(3.);

    // Center intersection: vertical border at x≈398.5, horizontal at y≈298.5
    let corners = layout.corners_at(num(400.), num(300.), &bounds, border);
    assert_eq!(corners.len(), 3, "should find 3 borders at center intersection");
}

#[test]
fn test_corners_at_2x2_grid_h_root() {
    let layout = make_2x2_grid_h_root();
    let bounds = rect(0., 0., 800., 600.);
    let border = num(3.);

    // Center intersection: horizontal border at y≈298.5, vertical at x≈398.5
    let corners = layout.corners_at(num(400.), num(300.), &bounds, border);
    assert_eq!(corners.len(), 3, "should find 3 borders at center intersection");
}

#[test]
fn test_corners_at_h_root_single_border() {
    let layout = make_2x2_grid_h_root();
    let bounds = rect(0., 0., 800., 600.);
    let border = num(3.);

    // Point on horizontal border only (not on either vertical)
    let corners = layout.corners_at(num(200.), num(300.), &bounds, border);
    assert_eq!(corners.len(), 1, "should find only horizontal border");
    assert_eq!(corners[0].1, SplitDirection::Horizontal);
}

#[test]
fn test_corners_at_single_border() {
    let layout = make_2x2_grid();
    let bounds = rect(0., 0., 800., 600.);
    let border = num(3.);

    // Point on vertical border only (not on horizontal)
    let corners = layout.corners_at(num(400.), num(200.), &bounds, border);
    assert_eq!(corners.len(), 1, "should find only vertical border");
    assert_eq!(corners[0].1, SplitDirection::Vertical);
}

#[test]
fn test_corners_at_single_horizontal_border() {
    let layout = make_2x2_grid();
    let bounds = rect(0., 0., 800., 600.);
    let border = num(3.);

    // Point on left horizontal border only
    let corners = layout.corners_at(num(200.), num(300.), &bounds, border);
    assert_eq!(corners.len(), 1, "should find only left horizontal border");
    assert_eq!(corners[0].1, SplitDirection::Horizontal);
}

#[test]
fn test_corner_drag_resize() {
    let mut layout = make_2x2_grid();
    let bounds = rect(0., 0., 800., 600.);
    let border = num(3.);
    let min_dim = num(50.);

    let corners = layout.corners_at(num(400.), num(300.), &bounds, border);
    assert_eq!(corners.len(), 3);

    // Simulate dragging the corner to (420, 320)
    for &(target, dir) in &corners {
        layout.resize_drag(target, dir, num(420.), &bounds, border, min_dim);
    }

    // After drag, the root vertical ratio should have changed
    match &layout {
        PaneLayout::Split { ratio, .. } => {
            assert!(float(*ratio) > 0.5, "vertical ratio should increase when dragging right");
        },
        _ => panic!("expected root split"),
    }
}
