use bite::persist::{closing_bounds, remember_bounds, WindowBounds};

#[test]
fn a_window_size_nothing_can_be_drawn_at_falls_back_to_the_default() {
    let unusable = |width, height| {
        WindowBounds {
            x: 240,
            y: 160,
            width,
            height,
            maximized: true,
        }
        .sized()
    };
    let default = WindowBounds::default();
    for bounds in [unusable(0, 0), unusable(1280, 0), unusable(99, 40_000)] {
        assert_eq!((bounds.width, bounds.height), (default.width, default.height));
        assert_eq!((bounds.x, bounds.y), (240, 160));
        assert!(bounds.maximized);
    }
    let kept = unusable(1400, 900);
    assert_eq!((kept.width, kept.height), (1400, 900));
}

#[test]
fn offscreen_window_bounds_are_moved_onto_a_monitor() {
    let window = WindowBounds {
        x: -4000,
        y: -3000,
        width: 1280,
        height: 800,
        maximized: false,
    };
    let bounds = window.window_within(&[(0, 0, 1920, 1080)]);
    assert!(bounds.x >= 0 && bounds.y >= 0);
}

#[test]
fn bounds_against_the_screen_edge_survive_the_visibility_test() {
    let window = WindowBounds {
        x: -11,
        y: -11,
        width: 2582,
        height: 1391,
        maximized: true,
    };
    let bounds = window.window_within(&[(0, 0, 2560, 1369)]);
    assert_eq!(bounds.x, -11);
    assert_eq!(bounds.y, -11);
    assert!(bounds.maximized);
}

#[test]
fn a_maximized_window_stays_maximized_even_when_its_rectangle_is_replaced() {
    let window = WindowBounds {
        x: -4000,
        y: -3000,
        width: 1280,
        height: 800,
        maximized: true,
    };
    let bounds = window.window_within(&[(0, 0, 1920, 1080)]);
    assert!(bounds.x >= 0 && bounds.y >= 0);
    assert!(bounds.maximized);
}

#[test]
fn remembered_bounds_on_a_live_monitor_are_kept() {
    let window = WindowBounds {
        x: 100,
        y: 100,
        width: 1400,
        height: 900,
        maximized: false,
    };
    let bounds = window.window_within(&[(0, 0, 1920, 1080)]);
    assert_eq!(bounds.x, 100);
    assert_eq!(bounds.width, 1400);
}

#[test]
fn with_no_monitor_known_the_bounds_stand_and_a_lost_window_goes_to_the_first() {
    let window = WindowBounds { x: 9000, y: 9000, width: 640, height: 480, maximized: false };
    assert_eq!(window.window_within(&[]), window);
    let moved = window.window_within(&[(-1920, 100, 1920, 1080), (0, 0, 1920, 1080)]);
    assert_eq!(moved, WindowBounds { x: -1840, y: 160, width: 1280, height: 800, maximized: false });
    let second = WindowBounds { x: 100, y: 100, width: 640, height: 480, maximized: false };
    assert_eq!(second.window_within(&[(-1920, 100, 1920, 1080), (0, 0, 1920, 1080)]), second);
}

#[test]
fn the_default_window_is_usable_as_it_stands() {
    let default = WindowBounds::default();
    assert_eq!(default, WindowBounds { x: 80, y: 60, width: 1280, height: 800, maximized: false });
    assert_eq!(default.sized(), default);
    let edge = WindowBounds { x: 0, y: 0, width: 320, height: 32_767, maximized: false };
    assert_eq!(edge.sized(), edge);
}

#[test]
fn only_an_ordinary_window_updates_the_remembered_rectangle() {
    let before = WindowBounds { x: 10, y: 20, width: 800, height: 600, maximized: false };
    let moved = remember_bounds(before, false, false, (1024, 768), Some((-5, 7)));
    assert_eq!(moved, WindowBounds { x: -5, y: 7, width: 1024, height: 768, maximized: false });
    assert_eq!(remember_bounds(before, true, false, (2560, 1400), Some((0, 0))), before);
    assert_eq!(remember_bounds(before, false, true, (2560, 1400), Some((0, 0))), before);
    assert_eq!(remember_bounds(before, false, false, (0, 768), Some((0, 0))), before);
    assert_eq!(remember_bounds(before, false, false, (1024, 768), None), before);
    let closed = closing_bounds(before, true, false, (2560, 1400), Some((0, 0)));
    assert_eq!(closed, WindowBounds { maximized: true, ..before });
}
