use bite::logging::{entries, LogBuffer};
use bite::timings::{
    import_lines, per, preview_line, report_import, report_preview, report_run, run_lines, set_enabled, Import,
    Preview, Run,
};

#[test]
fn an_average_needs_something_to_average() {
    assert_eq!(per(900, 3), "300ms");
    assert_eq!(per(900, 0), "-");
}

#[test]
fn an_import_reports_its_time_and_what_it_cost() {
    let lines = import_lines(Import {
        images: 26,
        cached: 24,
        generated: 2,
        processes: 1,
        milliseconds: 520,
    });
    assert_eq!(lines[0], "[timings] Import - 26 image(s) in 520ms, 20ms each");
    assert_eq!(lines[1], "[timings]   cached: 24  generated: 2  magick processes: 1");
}

#[test]
fn a_reused_preview_says_so_and_charges_nothing() {
    let line = preview_line(Preview {
        nodes: 3,
        reused: true,
        processes: 0,
        milliseconds: 0,
    });
    assert_eq!(line, "[timings] Preview - 3 node(s) in 0ms, 0 magick process(es), reused");
}

#[test]
fn a_run_reports_what_it_did_and_how_many_processes_it_took() {
    let lines = run_lines(Run {
        processed: 8,
        skipped: 1,
        failed: 0,
        processes: 8,
        milliseconds: 2400,
    });
    assert_eq!(lines[0], "[timings] Run - 8 processed, 1 skipped, 0 failed in 2400ms, 300ms each");
    assert_eq!(lines[1], "[timings]   magick processes: 8");
}

#[test]
fn nothing_is_recorded_until_the_menu_turns_it_on() {
    let mut buffer = LogBuffer::new();
    let import = Import { images: 2, cached: 1, generated: 1, processes: 1, milliseconds: 30 };
    assert!(report_import(false, import, &mut buffer).is_empty());
    assert!(report_preview(false, Preview::default(), &mut buffer).is_none());
    assert!(report_run(false, Run::default(), &mut buffer).is_empty());
    assert!(entries(&buffer).is_empty());
    let switched = set_enabled(true, &mut buffer);
    assert!(switched.ends_with(" [INFO] [timings] enabled"));
    let lines = report_import(true, import, &mut buffer);
    assert_eq!(lines.len(), 2);
    assert!(lines[0].ends_with("[timings] Import - 2 image(s) in 30ms, 15ms each"));
    let held = entries(&buffer);
    assert_eq!(held.len(), 3);
    assert_eq!(held[1].message, "[timings] Import - 2 image(s) in 30ms, 15ms each");
    assert_eq!(held[2].message, "[timings]   cached: 1  generated: 1  magick processes: 1");
    let off = set_enabled(false, &mut buffer);
    assert!(off.ends_with("[timings] disabled"));
}

#[test]
fn a_preview_that_was_not_reused_says_nothing_more() {
    let line = preview_line(Preview { nodes: 5, reused: false, processes: 2, milliseconds: 41 });
    assert_eq!(line, "[timings] Preview - 5 node(s) in 41ms, 2 magick process(es)");
    let mut buffer = LogBuffer::new();
    let logged = report_preview(true, Preview { nodes: 1, reused: false, processes: 1, milliseconds: 7 }, &mut buffer)
        .unwrap();
    assert!(logged.ends_with("[timings] Preview - 1 node(s) in 7ms, 1 magick process(es)"));
    let run = report_run(true, Run { processed: 0, skipped: 2, failed: 1, processes: 0, milliseconds: 9 }, &mut buffer);
    assert!(run[0].ends_with("[timings] Run - 0 processed, 2 skipped, 1 failed in 9ms, - each"));
}

#[test]
fn the_switch_reads_back_what_the_menu_set() {
    let mut buffer = LogBuffer::new();
    let mut timers = bite::timings::Timers::new();
    assert!(!timers.enabled());
    let line = timers.set_enabled(true, &mut buffer);
    assert!(timers.enabled());
    assert!(line.ends_with("[timings] enabled"));
    timers.set_enabled(false, &mut buffer);
    assert!(!timers.enabled());
    assert_eq!(entries(&buffer).len(), 2);
    assert_eq!(entries(&buffer)[1].message, "[timings] disabled");
}
