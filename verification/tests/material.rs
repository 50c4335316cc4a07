use rt::material::checker_picks_first;

#[test]
fn origin_cell_shows_first_color() {
    assert!(checker_picks_first(0, 0, 0));
}

#[test]
fn neighbouring_cells_alternate() {
    assert!(!checker_picks_first(1, 0, 0));
    assert!(!checker_picks_first(0, -1, 0));
    assert!(!checker_picks_first(0, 0, 3));
    assert!(checker_picks_first(-1, -1, 0));
    assert!(checker_picks_first(2, -5, 3));
    assert!(!checker_picks_first(-7, 0, 0));
}
