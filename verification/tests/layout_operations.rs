use alacritty_panes::binary32::Binary32;
use alacritty_panes::bounds::{split_bounds, PaneBounds, SplitDirection};
use alacritty_panes::layout::{contains_pane, first_leaf, last_leaf, DragCheck, PaneId, PaneLayout};

fn num(value: f32) -> Binary32 {
    Binary32::from_bits(value.to_bits())
}

fn float(value: Binary32) -> f32 {
    f32::from_bits(value.to_bits())
}

fn rect(x: f32, y: f32, width: f32, height: f32) -> PaneBounds {
    PaneBounds { x: num(x), y: num(y), width: num(width), height: num(height) }
}

fn corners_of(bounds: PaneBounds) -> (f32, f32, f32, f32) {
    (float(bounds.x), float(bounds.y), float(bounds.width), float(bounds.height))
}

fn ids(layout: &PaneLayout) -> Vec<u64> {
    layout.pane_ids().iter().map(|id| id.0).collect()
}

fn ratio_of(layout: &PaneLayout) -> f32 {
    match layout {
        PaneLayout::Split { ratio, .. } => float(*ratio),
        PaneLayout::Leaf(_) => panic!("expected a split"),
    }
}

/// 1 above 2 on the left, 3 on the right.
fn three_panes() -> PaneLayout {
    let mut layout = PaneLayout::new(PaneId::new(1));
    assert!(layout.split(PaneId::new(1), PaneId::new(3), SplitDirection::Vertical));
    assert!(layout.split(PaneId::new(1), PaneId::new(2), SplitDirection::Horizontal));
    layout
}

#[test]
fn directions_have_names() {
    assert_eq!(SplitDirection::Vertical.to_string(), "vertical");
    assert_eq!(SplitDirection::Horizontal.to_string(), "horizontal");
}

#[test]
fn default_values_are_placeholders() {
    assert_eq!(ids(&PaneLayout::default()), vec![u64::MAX]);
    assert_eq!(corners_of(PaneBounds::default()), (0., 0., 0., 0.));
}

#[test]
fn split_puts_new_pane_behind_target() {
    let mut layout = three_panes();
    assert_eq!(ids(&layout), vec![1, 2, 3]);
    assert!(layout.split(PaneId::new(2), PaneId::new(7), SplitDirection::Vertical));
    assert_eq!(ids(&layout), vec![1, 2, 7, 3]);
    assert_eq!(layout.count(), 4);
    assert!(!layout.split(PaneId::new(9), PaneId::new(8), SplitDirection::Vertical));
    assert_eq!(ids(&layout), vec![1, 2, 7, 3]);
}

#[test]
fn close_collapses_split() {
    let mut layout = three_panes();
    assert!(layout.close(PaneId::new(1)));
    assert_eq!(ids(&layout), vec![2, 3]);
    assert!(!layout.close(PaneId::new(1)));
    assert!(layout.close(PaneId::new(3)));
    assert_eq!(ids(&layout), vec![2]);
    // A single leaf stays.
    assert!(layout.close(PaneId::new(2)));
    assert_eq!(ids(&layout), vec![2]);
}

#[test]
fn close_gives_split_layout_back() {
    let mut layout = three_panes();
    let before = format!("{:?}", layout);
    assert!(layout.split(PaneId::new(3), PaneId::new(4), SplitDirection::Horizontal));
    assert_ne!(format!("{:?}", layout), before);
    assert!(layout.close(PaneId::new(4)));
    assert_eq!(format!("{:?}", layout), before);
}

#[test]
fn navigation_crosses_matching_splits() {
    let layout = three_panes();
    let go = |from: u64, direction| layout.navigate(PaneId::new(from), direction).map(|id| id.0);
    assert_eq!(go(1, SplitDirection::Vertical), Some(3));
    assert_eq!(go(2, SplitDirection::Vertical), Some(3));
    assert_eq!(go(3, SplitDirection::Vertical), Some(2));
    assert_eq!(go(1, SplitDirection::Horizontal), Some(2));
    assert_eq!(go(2, SplitDirection::Horizontal), Some(1));
    // No horizontal split has pane 3 below it.
    assert_eq!(go(3, SplitDirection::Horizontal), Some(3));
    assert_eq!(go(9, SplitDirection::Vertical), None);
    assert_eq!(
        PaneLayout::new(PaneId::new(5)).navigate(PaneId::new(9), SplitDirection::Vertical),
        Some(PaneId::new(5))
    );
}

#[test]
fn leaves_are_found_from_both_ends() {
    let layout = three_panes();
    assert_eq!(first_leaf(&layout), Some(PaneId::new(1)));
    assert_eq!(last_leaf(&layout), Some(PaneId::new(3)));
    assert!(contains_pane(&layout, PaneId::new(2)));
    assert!(!contains_pane(&layout, PaneId::new(9)));
}

#[test]
fn resize_moves_innermost_split() {
    let mut layout = three_panes();
    let (low, high) = (num(0.1), num(0.9));
    // The first side grows.
    assert!(layout.resize(PaneId::new(1), SplitDirection::Vertical, num(0.25), low, high));
    assert_eq!(ratio_of(&layout), 0.75);
    // The second side grows.
    assert!(layout.resize(PaneId::new(3), SplitDirection::Vertical, num(0.5), low, high));
    assert_eq!(ratio_of(&layout), 0.25);
    // The limits hold.
    assert!(layout.resize(PaneId::new(3), SplitDirection::Vertical, num(0.5), low, high));
    assert_eq!(ratio_of(&layout), 0.1);
    assert!(layout.resize(PaneId::new(1), SplitDirection::Vertical, num(5.), low, high));
    assert_eq!(ratio_of(&layout), 0.9);
    // The inner split is the horizontal one.
    assert!(layout.resize(PaneId::new(2), SplitDirection::Horizontal, num(0.125), low, high));
    match &layout {
        PaneLayout::Split { first, .. } => assert_eq!(ratio_of(first), 0.375),
        PaneLayout::Leaf(_) => panic!("expected a split"),
    }
    assert_eq!(ratio_of(&layout), 0.9);
    assert_eq!(ids(&layout), vec![1, 2, 3]);
    // Nothing to resize.
    assert!(!layout.resize(PaneId::new(3), SplitDirection::Horizontal, num(0.1), low, high));
    assert!(!layout.resize(PaneId::new(9), SplitDirection::Vertical, num(0.1), low, high));
    assert_eq!(ratio_of(&layout), 0.9);
}

#[test]
fn resize_prefers_inner_split_of_same_direction() {
    let mut layout = PaneLayout::new(PaneId::new(1));
    layout.split(PaneId::new(1), PaneId::new(3), SplitDirection::Vertical);
    layout.split(PaneId::new(1), PaneId::new(2), SplitDirection::Vertical);
    assert!(layout.resize(
        PaneId::new(2),
        SplitDirection::Vertical,
        num(0.25),
        num(0.05),
        num(0.95)
    ));
    assert_eq!(ratio_of(&layout), 0.5);
    match &layout {
        PaneLayout::Split { first, .. } => assert_eq!(ratio_of(first), 0.25),
        PaneLayout::Leaf(_) => panic!("expected a split"),
    }
}

#[test]
fn drag_follows_pointer_between_limits() {
    let bounds = rect(0., 0., 802., 600.);
    let border = num(2.);
    let mut last = 0.;
    for position in [-50., 0., 100., 200., 400., 600., 780., 900.] {
        let mut layout = three_panes();
        assert!(layout.resize_drag(
            PaneId::new(3),
            SplitDirection::Vertical,
            num(position),
            &bounds,
            border,
            num(160.),
        ));
        let ratio = ratio_of(&layout);
        assert_eq!(ratio, (position / 800.).clamp(0.2, 1.0 - 0.2));
        assert!(ratio >= last);
        last = ratio;
        assert_eq!(ids(&layout), vec![1, 2, 3]);
    }
}

#[test]
fn drag_keeps_a_twentieth_on_each_side() {
    let bounds = rect(0., 0., 100., 100.);
    let mut layout = three_panes();
    let drag = |layout: &mut PaneLayout, position: f32, min: f32| {
        layout.resize_drag(
            PaneId::new(1),
            SplitDirection::Vertical,
            num(position),
            &bounds,
            num(0.),
            num(min),
        );
        ratio_of(layout)
    };
    assert_eq!(drag(&mut layout, 0., 0.), 0.05);
    assert_eq!(drag(&mut layout, 100., 0.), 0.95);
    // A smallest extent of more than half the room leaves the middle.
    assert_eq!(drag(&mut layout, 0., 80.), 0.5);
    assert_eq!(drag(&mut layout, 100., 80.), 0.5);
}

#[test]
fn drag_without_room_moves_nothing() {
    let mut layout = three_panes();
    let before = format!("{:?}", layout);
    for width in [2., 1., 0., -5.] {
        let bounds = rect(0., 0., width, 600.);
        assert!(!layout.resize_drag(
            PaneId::new(3),
            SplitDirection::Vertical,
            num(1.),
            &bounds,
            num(2.),
            num(10.),
        ));
    }
    let bounds = rect(0., 0., 800., 600.);
    assert!(!layout.resize_drag(
        PaneId::new(9),
        SplitDirection::Vertical,
        num(1.),
        &bounds,
        num(2.),
        num(10.),
    ));
    assert!(!layout.resize_drag(
        PaneId::new(3),
        SplitDirection::Horizontal,
        num(1.),
        &bounds,
        num(2.),
        num(10.),
    ));
    assert_eq!(format!("{:?}", layout), before);
}

#[test]
fn check_drag_tells_what_a_drag_does() {
    let layout = three_panes();
    let check = |target: u64, direction, width: f32, min: f32| {
        layout.check_drag(
            PaneId::new(target),
            direction,
            num(1.),
            &rect(0., 0., width, 600.),
            num(2.),
            num(min),
        )
    };
    assert_eq!(
        check(3, SplitDirection::Vertical, 800., 10.),
        DragCheck { moves: true, has_limits: true }
    );
    assert_eq!(
        check(2, SplitDirection::Horizontal, 800., 10.),
        DragCheck { moves: true, has_limits: true }
    );
    assert_eq!(
        check(3, SplitDirection::Horizontal, 800., 10.),
        DragCheck { moves: false, has_limits: true }
    );
    assert_eq!(
        check(3, SplitDirection::Vertical, 2., 0.),
        DragCheck { moves: false, has_limits: true }
    );
    assert_eq!(
        check(3, SplitDirection::Vertical, 800., f32::NAN),
        DragCheck { moves: true, has_limits: false }
    );
    assert_eq!(
        check(3, SplitDirection::Vertical, f32::INFINITY, f32::INFINITY),
        DragCheck { moves: true, has_limits: false }
    );
}

#[test]
fn sides_share_the_bounds() {
    let bounds = rect(10., 20., 803., 603.);
    let (left, right) = split_bounds(bounds, SplitDirection::Vertical, num(0.25), num(3.));
    assert_eq!(corners_of(left), (10., 20., 200., 603.));
    assert_eq!(corners_of(right), (213., 20., 600., 603.));
    let (top, bottom) = split_bounds(bounds, SplitDirection::Horizontal, num(0.5), num(3.));
    assert_eq!(corners_of(top), (10., 20., 803., 300.));
    assert_eq!(corners_of(bottom), (10., 323., 803., 300.));
    // No point is on both sides.
    for step in 0..8200 {
        let px = num(step as f32 * 0.1);
        assert!(!(left.contains(px, num(30.)) && right.contains(px, num(30.))));
    }
}

#[test]
fn bounds_contain_two_edges() {
    let bounds = rect(10., 20., 30., 40.);
    assert!(bounds.contains(num(10.), num(20.)));
    assert!(bounds.contains(num(39.5), num(59.5)));
    assert!(!bounds.contains(num(40.), num(30.)));
    assert!(!bounds.contains(num(20.), num(60.)));
    assert!(!bounds.contains(num(9.5), num(30.)));
    assert!(!bounds.contains(num(f32::NAN), num(30.)));
}

#[test]
fn padding_never_turns_bounds_inside_out() {
    let bounds = rect(10., 20., 30., 40.);
    assert_eq!(corners_of(bounds.pad(num(5.), num(6.))), (15., 26., 20., 28.));
    assert_eq!(corners_of(bounds.pad(num(16.), num(25.))), (26., 45., 0., 0.));
}

#[test]
fn every_pane_is_placed_once_in_order() {
    let layout = three_panes();
    let placed = layout.compute_bounds(rect(0., 0., 802., 602.), num(2.));
    let order: Vec<u64> = placed.iter().map(|(id, _)| id.0).collect();
    assert_eq!(order, ids(&layout));
    assert_eq!(corners_of(placed[0].1), (0., 0., 400., 300.));
    assert_eq!(corners_of(placed[1].1), (0., 302., 400., 300.));
    assert_eq!(corners_of(placed[2].1), (402., 0., 400., 602.));
}

#[test]
fn hit_test_finds_pane_below_point() {
    let layout = three_panes();
    let bounds = rect(0., 0., 802., 602.);
    let hit = |x: f32, y: f32| layout.pane_at(num(x), num(y), &bounds, num(2.)).map(|id| id.0);
    assert_eq!(hit(10., 10.), Some(1));
    assert_eq!(hit(10., 400.), Some(2));
    assert_eq!(hit(500., 400.), Some(3));
    // On the borders, and outside of the window.
    assert_eq!(hit(401., 10.), None);
    assert_eq!(hit(10., 301.), None);
    assert_eq!(hit(-1., 10.), None);
    assert_eq!(hit(900., 10.), None);
}

#[test]
fn borders_are_named_by_their_first_pane() {
    let layout = three_panes();
    let bounds = rect(0., 0., 802., 602.);
    let find = |x: f32, y: f32| layout.border_at(num(x), num(y), &bounds, num(2.));
    assert_eq!(find(401., 10.), Some((PaneId::new(1), SplitDirection::Vertical)));
    assert_eq!(find(10., 301.), Some((PaneId::new(1), SplitDirection::Horizontal)));
    assert_eq!(find(10., 10.), None);
    // A border reaches as far as its split does.
    assert_eq!(find(700., 301.), None);
    assert!(layout.corners_at(num(700.), num(301.), &bounds, num(2.)).is_empty());
    // Where there is no border there is no corner.
    assert!(layout.corners_at(num(10.), num(10.), &bounds, num(2.)).is_empty());
    assert_eq!(
        layout.corners_at(num(400.), num(301.), &bounds, num(2.)),
        vec![
            (PaneId::new(1), SplitDirection::Vertical),
            (PaneId::new(1), SplitDirection::Horizontal)
        ]
    );
}

fn split(direction: SplitDirection, first: PaneLayout, second: PaneLayout) -> PaneLayout {
    PaneLayout::Split {
        direction,
        ratio: num(0.5),
        first: Box::new(first),
        second: Box::new(second),
    }
}

fn leaf(id: u64) -> PaneLayout {
    PaneLayout::new(PaneId::new(id))
}

#[test]
fn borders_are_found_where_they_are() {
    let bounds = rect(0., 0., 800., 600.);
    let grid = split(
        SplitDirection::Vertical,
        split(SplitDirection::Horizontal, leaf(1), leaf(2)),
        split(SplitDirection::Horizontal, leaf(3), leaf(4)),
    );
    let find = |layout: &PaneLayout, x: f32| layout.border_at(num(x), num(300.), &bounds, num(3.));
    assert_eq!(find(&grid, 200.), Some((PaneId::new(1), SplitDirection::Horizontal)));
    assert_eq!(find(&grid, 600.), Some((PaneId::new(3), SplitDirection::Horizontal)));
    assert_eq!(find(&grid, 400.), Some((PaneId::new(1), SplitDirection::Vertical)));
    // The left pane has the full height.
    let column = split(
        SplitDirection::Vertical,
        leaf(1),
        split(SplitDirection::Horizontal, leaf(2), leaf(3)),
    );
    assert_eq!(find(&column, 200.), None);
    assert_eq!(find(&column, 600.), Some((PaneId::new(2), SplitDirection::Horizontal)));
}

#[test]
fn corners_are_fewer_than_panes() {
    let bounds = rect(0., 0., 800., 600.);
    let grid = split(
        SplitDirection::Vertical,
        split(SplitDirection::Horizontal, leaf(1), leaf(2)),
        split(SplitDirection::Horizontal, leaf(3), leaf(4)),
    );
    for x in 0..80 {
        for y in 0..60 {
            let (px, py) = (num(x as f32 * 10.), num(y as f32 * 10.));
            let corners = grid.corners_at(px, py, &bounds, num(3.));
            assert!(corners.len() < grid.count());
            // What is found at a corner is found as a border.
            assert!(corners.is_empty() || grid.border_at(px, py, &bounds, num(3.)).is_some());
        }
    }
}

#[test]
fn repeated_drag_changes_nothing() {
    let bounds = rect(0., 0., 800., 600.);
    let mut layout = three_panes();
    for (target, direction) in
        [(3, SplitDirection::Vertical), (2, SplitDirection::Horizontal), (1, SplitDirection::Vertical)]
    {
        let drag = |layout: &mut PaneLayout| {
            layout.resize_drag(
                PaneId::new(target),
                direction,
                num(333.),
                &bounds,
                num(2.),
                num(50.),
            )
        };
        assert!(drag(&mut layout));
        let once = format!("{:?}", layout);
        assert!(drag(&mut layout));
        assert_eq!(format!("{:?}", layout), once);
    }
}

#[test]
fn drag_goes_to_innermost_split_with_room() {
    // The inner vertical split has no room: the outer one moves.
    let mut layout = PaneLayout::Split {
        direction: SplitDirection::Vertical,
        ratio: num(0.),
        first: Box::new(split(SplitDirection::Vertical, leaf(1), leaf(2))),
        second: Box::new(leaf(3)),
    };
    let bounds = rect(0., 0., 102., 100.);
    assert!(layout.resize_drag(
        PaneId::new(1),
        SplitDirection::Vertical,
        num(40.),
        &bounds,
        num(2.),
        num(0.),
    ));
    assert_eq!(ratio_of(&layout), 0.4);
    // Now it has: it moves next.
    assert!(layout.resize_drag(
        PaneId::new(1),
        SplitDirection::Vertical,
        num(19.),
        &bounds,
        num(2.),
        num(0.),
    ));
    assert_eq!(ratio_of(&layout), 0.4);
    match &layout {
        PaneLayout::Split { first, .. } => assert_eq!(ratio_of(first), 0.5),
        PaneLayout::Leaf(_) => panic!("expected a split"),
    }
}

#[test]
fn panes_tile_the_window() {
    let layout = three_panes();
    let placed = layout.compute_bounds(rect(0., 0., 802., 602.), num(2.));
    for x in 0..420 {
        for y in 0..320 {
            let (px, py) = (num(x as f32 * 2.), num(y as f32 * 2.));
            let hits = placed.iter().filter(|(_, bounds)| bounds.contains(px, py)).count();
            assert!(hits <= 1);
            assert!(hits == 0 || (x < 401 && y < 301));
        }
    }
}

#[test]
fn copies_of_layouts_are_equal() {
    let layout = three_panes();
    assert_eq!(format!("{:?}", layout.clone()), format!("{:?}", layout));
}
