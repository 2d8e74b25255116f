use numatop::app::{App, Rect};

fn rect(x: u16, y: u16, width: u16, height: u16) -> Rect {
    Rect { x, y, width, height }
}

#[test]
fn a_cell_inside_one_area_gives_its_core() {
    let mut app = App::new();
    app.add_cpu_core_area(0, rect(2, 3, 10, 1));
    app.add_cpu_core_area(1, rect(2, 4, 10, 1));
    app.add_cpu_core_area(7, rect(20, 3, 5, 2));
    assert_eq!(app.handle_mouse_click(5, 3), Some(0));
    assert_eq!(app.handle_mouse_click(5, 4), Some(1));
    assert_eq!(app.handle_mouse_click(22, 4), Some(7));
}

#[test]
fn a_cell_outside_every_area_gives_nothing() {
    let mut app = App::new();
    assert_eq!(app.handle_mouse_click(0, 0), None);
    app.add_cpu_core_area(0, rect(2, 3, 10, 1));
    app.add_cpu_core_area(1, rect(2, 4, 10, 1));
    assert_eq!(app.handle_mouse_click(0, 0), None);
    assert_eq!(app.handle_mouse_click(5, 5), None);
    assert_eq!(app.handle_mouse_click(5, 2), None);
    assert_eq!(app.handle_mouse_click(1, 3), None);
    assert_eq!(app.handle_mouse_click(12, 3), None);
}

#[test]
fn the_left_and_upper_edges_belong_the_right_and_lower_do_not() {
    let area = rect(2, 3, 10, 4);
    assert!(area.contains(2, 3));
    assert!(area.contains(11, 6));
    assert!(!area.contains(12, 3));
    assert!(!area.contains(2, 7));
    assert!(!area.contains(1, 3));
    assert!(!area.contains(2, 2));
    assert!(!rect(5, 5, 0, 3).contains(5, 5));
    assert!(!rect(5, 5, 3, 0).contains(5, 5));
}

#[test]
fn areas_at_the_far_edge_do_not_wrap() {
    let area = rect(65530, 65535, 10, 1);
    assert!(area.contains(65535, 65535));
    assert!(area.contains(65530, 65535));
    assert!(!area.contains(0, 65535));
    assert!(!area.contains(3, 0));
    let mut app = App::new();
    app.add_cpu_core_area(9, area);
    assert_eq!(app.handle_mouse_click(65535, 65535), Some(9));
    assert_eq!(app.handle_mouse_click(4, 65535), None);
}

#[test]
fn the_first_of_overlapping_areas_wins() {
    let mut app = App::new();
    app.add_cpu_core_area(4, rect(0, 0, 10, 10));
    app.add_cpu_core_area(5, rect(5, 5, 10, 10));
    assert_eq!(app.handle_mouse_click(6, 6), Some(4));
    assert_eq!(app.handle_mouse_click(12, 12), Some(5));
}

#[test]
fn after_clearing_nothing_resolves() {
    let mut app = App::new();
    app.add_cpu_core_area(0, rect(2, 3, 10, 1));
    app.add_cpu_core_area(1, rect(2, 4, 10, 1));
    assert_eq!(app.handle_mouse_click(5, 3), Some(0));
    app.clear_cpu_core_areas();
    assert!(app.cpu_core_areas.is_empty());
    assert_eq!(app.handle_mouse_click(5, 3), None);
    assert_eq!(app.handle_mouse_click(5, 4), None);
    app.add_cpu_core_area(3, rect(0, 0, 1, 1));
    assert_eq!(app.handle_mouse_click(0, 0), Some(3));
    assert_eq!(app.handle_mouse_click(5, 3), None);
    assert_eq!(app.cpu_core_areas.len(), 1);
}
