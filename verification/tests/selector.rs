use pendulum_sim::selector::{
    even_height, grid_cells, ActiveSelector, PointSelector, RectSelector, Selector,
};

#[test]
fn active_selector_default_is_rect() {
    assert_eq!(ActiveSelector::default(), ActiveSelector::RectSel);
}

#[test]
fn rect_selector_keeps_last_two_clicks() {
    let mut rect = RectSelector::new((0u8, 0u8), (10u8, 10u8), 100);
    assert_eq!(rect.corner_points(), ((0, 0), (10, 10)));
    rect.add_selection((3, 4));
    assert_eq!(rect.corner_points(), ((10, 10), (3, 4)));
    rect.add_selection((5, 6));
    assert_eq!(rect.corner_points(), ((3, 4), (5, 6)));
    assert_eq!(rect.width, 100);
}

#[test]
fn point_selector_collects_clicks_in_order() {
    let mut points: PointSelector<(i32, i32)> = PointSelector::default();
    assert!(points.get_points().is_empty());
    points.add_selection((1, 2));
    points.add_selection((3, 4));
    points.add_selection((1, 2));
    assert_eq!(points.get_points(), vec![(1, 2), (3, 4), (1, 2)]);
}

#[test]
fn selector_routes_to_active() {
    let mut sel = Selector::new(RectSelector::new(0u32, 1u32, 4), PointSelector::default());
    assert_eq!(sel.active, ActiveSelector::RectSel);
    sel.add_selection(7);
    assert_eq!(sel.rect.corner_points(), (1, 7));
    assert!(sel.point.get_points().is_empty());
    sel.active = ActiveSelector::PointSel;
    sel.add_selection(9);
    assert_eq!(sel.point.get_points(), vec![9]);
    assert_eq!(sel.rect.corner_points(), (1, 7));
}

#[test]
fn grid_cells_row_by_row() {
    assert_eq!(
        grid_cells(3, 2),
        vec![(0, 0), (1, 0), (2, 0), (0, 1), (1, 1), (2, 1)]
    );
    assert!(grid_cells(0, 5).is_empty());
    assert!(grid_cells(5, 0).is_empty());
}

#[test]
fn grid_cells_cover_grid_once() {
    let cells = grid_cells(7, 4);
    assert_eq!(cells.len(), 28);
    for r in 0..4 {
        for c in 0..7 {
            assert_eq!(cells[r * 7 + c], (c, r));
        }
    }
}

#[test]
fn even_height_rounds_up() {
    assert_eq!(even_height(7), 8);
    assert_eq!(even_height(8), 8);
    assert_eq!(even_height(0), 0);
    assert_eq!(even_height(1), 2);
}
