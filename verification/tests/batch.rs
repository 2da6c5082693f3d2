use bite::batch::{BatchAction, BatchReport, BatchRun, Stage};
use bite::thumbnails::{Stamp, ThumbnailCache, ThumbnailInfo};

fn picture(path: &str, width: u32) -> ThumbnailInfo {
    ThumbnailInfo {
        path: path.to_string(),
        thumbnail: format!("{path}.webp"),
        width,
        height: width,
        format: "PNG".to_string(),
        size_bytes: 1,
    }
}

/// Answers every action as a machine with ImageMagick would, failing for the broken file.
fn drive(run: &mut BatchRun, cache: &mut ThumbnailCache, log: &mut Vec<String>) -> Result<Vec<ThumbnailInfo>, String> {
    loop {
        let report = match run.next_action() {
            BatchAction::Run(args) => {
                log.push(format!("run {}", args.len()));
                if args.iter().any(|arg| arg.starts_with("broken")) {
                    BatchReport::Printed(Err("unreadable".to_string()), false)
                } else {
                    let lines: Vec<&str> = args.iter().filter(|arg| arg.as_str() == "-print").map(|_| "8 6 PNG").collect();
                    BatchReport::Printed(Ok(lines.join("\n")), false)
                }
            }
            BatchAction::Identify(args) => {
                log.push(format!("identify {}", args[3]));
                BatchReport::Identified(Ok("3 4 GIF".to_string()), false)
            }
            BatchAction::Stamp(path) => {
                log.push(format!("stamp {path}"));
                BatchReport::Stamped(Ok(Stamp { size: 1, modified_ns: 2 }))
            }
            BatchAction::Remove(path) => {
                log.push(format!("remove {path}"));
                BatchReport::Removed
            }
            BatchAction::Finished(items) => return Ok(items),
            BatchAction::Cancelled => return Err("Cancelled".to_string()),
        };
        run.advance(cache, report, 7);
    }
}

#[test]
fn one_unreadable_picture_does_not_lose_the_batch_it_was_read_with() {
    let items = vec![picture("a.png", 0), picture("b.png", 0), picture("broken.png", 0), picture("c.png", 0)];
    let mut cache = ThumbnailCache::new("cache".to_string(), Some(2));
    let mut run = BatchRun::new(items, &[0, 1, 2, 3], 4, 64);
    assert_eq!(run.stage, Stage::Batch(0));
    let mut log = Vec::new();
    let loaded = drive(&mut run, &mut cache, &mut log).unwrap();
    let names: Vec<&str> = loaded.iter().map(|item| item.path.as_str()).collect();
    assert_eq!(names, ["a.png", "b.png", "c.png"]);
    assert!(loaded.iter().all(|item| item.width == 8 && item.height == 6));
    assert_eq!(cache.failures, vec![("broken.png".to_string(), "unreadable".to_string())]);
    assert_eq!(
        log,
        [
            "run 38", "run 8", "run 8", "run 8", "run 8", "stamp a.png", "stamp b.png", "stamp c.png",
            "remove broken.png.webp",
        ]
    );
}

#[test]
fn a_picture_alone_in_a_failed_command_is_not_tried_twice() {
    let items = vec![picture("broken.png", 5), picture("ok.png", 5)];
    let mut cache = ThumbnailCache::new("cache".to_string(), None);
    let mut run = BatchRun::new(items, &[0, 1], 1, 32);
    let mut log = Vec::new();
    let loaded = drive(&mut run, &mut cache, &mut log).unwrap();
    assert_eq!(loaded.len(), 1);
    assert_eq!(log, ["run 6", "run 6", "stamp ok.png", "remove broken.png.webp"]);
}

#[test]
fn an_unmeasured_picture_is_identified_before_it_is_stamped() {
    let items = vec![picture("x.tga", 0)];
    let mut cache = ThumbnailCache::new("cache".to_string(), None);
    let mut run = BatchRun::new(items, &[], 8, 32);
    assert_eq!(run.stage, Stage::Identify(0));
    let mut log = Vec::new();
    let loaded = drive(&mut run, &mut cache, &mut log).unwrap();
    assert_eq!((loaded[0].width, loaded[0].height, loaded[0].format.as_str()), (3, 4, "GIF"));
    assert_eq!(log, ["identify x.tga[0]", "stamp x.tga"]);
}

#[test]
fn a_cancelled_import_stops_at_the_failed_command() {
    let items = vec![picture("a.png", 0), picture("b.png", 0)];
    let mut cache = ThumbnailCache::new("cache".to_string(), None);
    let mut run = BatchRun::new(items, &[0, 1], 8, 32);
    run.advance(&mut cache, BatchReport::Printed(Err("killed".to_string()), true), 0);
    assert_eq!(run.stage, Stage::Cancelled);
    assert!(matches!(run.next_action(), BatchAction::Cancelled));
    assert!(cache.failures.is_empty());
}

#[test]
fn a_file_that_cannot_be_stamped_is_dropped() {
    let items = vec![picture("gone.png", 4), picture("kept.png", 4)];
    let mut cache = ThumbnailCache::new("cache".to_string(), None);
    let mut run = BatchRun::new(items, &[], 8, 32);
    assert_eq!(run.stage, Stage::Stamp(0));
    run.advance(&mut cache, BatchReport::Stamped(Err("missing".to_string())), 0);
    assert_eq!(run.stage, Stage::Stamp(1));
    run.advance(&mut cache, BatchReport::Stamped(Ok(Stamp { size: 3, modified_ns: 1 })), 0);
    assert_eq!(run.stage, Stage::Remove(0));
    run.advance(&mut cache, BatchReport::Removed, 0);
    assert_eq!(run.stage, Stage::Done);
    match run.next_action() {
        BatchAction::Finished(items) => assert_eq!(items.len(), 1),
        other => panic!("{other:?}"),
    }
    assert!(cache.metadata.get("kept.png").is_some());
    assert!(cache.metadata.get("gone.png").is_none());
}
