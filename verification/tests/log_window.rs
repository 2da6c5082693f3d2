use bite::log_window::{parse, split_tag, LogWindow};
use bite::logging::{info, Level, LogBuffer};

#[test]
fn a_recorded_line_splits_into_its_time_level_and_message() {
    let line = parse("12:34:56.789 [WARN] [magick] slow spawn");
    assert_eq!(line.timestamp, "12:34:56.789");
    assert_eq!(line.level, Level::Warning);
    assert_eq!(line.message, "[magick] slow spawn");
    assert!(!line.banner);
}

#[test]
fn a_session_banner_is_its_own_kind_of_line() {
    let line = parse("--- Session 2026-09-20T10:11:12Z ---");
    assert!(line.banner);
    assert_eq!(line.message, "Session 2026-09-20T10:11:12Z");
}

#[test]
fn a_line_in_no_particular_shape_is_kept_as_it_stands() {
    let line = parse("    at some::frame (src/lib.rs:12)");
    assert_eq!(line.message, "    at some::frame (src/lib.rs:12)");
    assert_eq!(line.level, Level::Info);
    assert!(line.timestamp.is_empty());
}

#[test]
fn an_opening_tag_is_separated_so_it_can_be_colored() {
    assert_eq!(split_tag("[magick] done"), (Some("[magick]"), " done"));
    assert_eq!(split_tag("plain"), (None, "plain"));
    assert_eq!(split_tag("[unclosed"), (None, "[unclosed"));
}

#[test]
fn the_filters_decide_which_lines_show() {
    let mut window = LogWindow::with_lines(vec![
        parse("12:00:00.000 [INFO] one"),
        parse("12:00:01.000 [ERROR] two"),
    ]);
    assert_eq!(window.visible().len(), 2);
    window.show_info = false;
    let visible = window.visible();
    let shown: Vec<&str> = visible.iter().map(|line| line.message.as_str()).collect();
    assert_eq!(shown, ["two"]);
}

#[test]
fn clearing_hides_what_is_there_without_losing_what_follows() {
    let mut window = LogWindow::with_lines(vec![parse("12:00:00.000 [INFO] before")]);
    window.clear();
    assert_eq!(window.visible().len(), 0);
    window.absorb("12:00:02.000 [INFO] after\n");
    let visible = window.visible();
    let shown: Vec<&str> = visible.iter().map(|line| line.message.as_str()).collect();
    assert_eq!(shown, ["after"]);
}

#[test]
fn a_line_the_log_writes_reads_back_as_it_was_written() {
    let mut buffer = LogBuffer::new();
    let written = info(&mut buffer, "[import] 3 image(s)".to_string());
    let line = parse(&written);
    assert_eq!(line.timestamp.len(), 12);
    assert_eq!(line.level, Level::Info);
    assert_eq!(line.message, "[import] 3 image(s)");
    assert!(!line.banner);
}

#[test]
fn an_unknown_level_tag_reads_as_a_notice_with_the_rest_as_message() {
    let line = parse("12:00:00.000 [DEBUG] detail");
    assert_eq!(line.timestamp, "12:00:00.000");
    assert_eq!(line.level, Level::Info);
    assert_eq!(line.message, "detail");
}

#[test]
fn the_file_is_read_once_and_a_shorter_file_starts_over() {
    let mut window = LogWindow::default();
    window.show();
    let text = "12:00:00.000 [INFO] one\r\n\n   \n12:00:01.000 [WARN] two\n";
    assert!(window.prepare_read(text.len() as u64));
    window.absorb(text);
    assert_eq!(window.visible().len(), 2);
    assert!(!window.prepare_read(text.len() as u64));
    let longer = format!("{text}12:00:02.000 [ERROR] three\n");
    assert!(window.prepare_read(longer.len() as u64));
    window.absorb(&longer);
    let visible = window.visible();
    assert_eq!(visible.len(), 3);
    assert_eq!(visible[2].level, Level::Error);
    assert!(window.prepare_read(4));
    assert_eq!(window.visible().len(), 0);
}

#[test]
fn a_seeded_window_shows_its_own_lines_and_stops_following_the_file() {
    let mut window = LogWindow::default();
    assert!(window.follows_file());
    window.seed(vec![parse("--- Session 2026-01-01T00:00:00Z ---"), parse("12:00:00.000 [WARN] w")]);
    assert!(window.open);
    assert!(!window.follows_file());
    window.show_warning = false;
    assert!(!window.shows(Level::Warning));
    let visible = window.visible();
    assert_eq!(visible.len(), 1);
    assert!(visible[0].banner);
}

#[test]
fn the_session_banner_reads_back_as_a_banner() {
    let banner = bite::logging::session_banner();
    assert!(banner.starts_with("--- Session ") && banner.ends_with("Z ---"));
    let line = parse(&banner);
    assert!(line.banner);
    assert_eq!(line.message, banner.trim_matches(['-', ' ']));
    assert!(line.message.starts_with("Session "));
    assert_eq!(line.message.len(), "Session ".len() + 20);
}

#[test]
fn turning_a_level_off_hides_its_lines_and_a_seeded_window_ignores_the_file() {
    let mut window = LogWindow::default();
    window.seed(vec![parse("12:00:00.000 [INFO] one"), parse("12:00:01.000 [ERROR] two")]);
    window.set_shown(Level::Info, false);
    assert!(!window.shows(Level::Info) && window.shows(Level::Error));
    let visible = window.visible();
    let shown: Vec<&str> = visible.iter().map(|line| line.message.as_str()).collect();
    assert_eq!(shown, ["two"]);
    assert!(!window.prepare_read(500));
    window.absorb("12:00:02.000 [ERROR] three\n");
    assert_eq!(window.visible().len(), 1);
    window.set_shown(Level::Info, true);
    assert_eq!(window.visible().len(), 2);
}
