use bite::magick::thread_share;
use bite::thumbnails::{
    batches, check_size, default_jobs, identified, measure, retained, thumbnail_command,
    thumbnail_file, FileState, Stamp, ThumbnailCache, ThumbnailInfo, ThumbnailStats,
};

fn info(path: &str, thumbnail: &str, width: u32, height: u32, format: &str) -> ThumbnailInfo {
    ThumbnailInfo {
        path: path.to_string(),
        thumbnail: thumbnail.to_string(),
        width,
        height,
        format: format.to_string(),
        size_bytes: 0,
    }
}

#[test]
fn a_single_file_command_writes_its_thumbnail_without_a_write_and_delete() {
    let items = vec![
        info("first.png", "first.webp", 0, 0, "PNG"),
        info("second.jpg", "second.webp", 8, 8, "JPEG"),
    ];
    let (args, printed) = thumbnail_command(&items, &[1], 64);
    assert!(!args.iter().any(|argument| argument == "+delete"), "{args:?}");
    assert_eq!(args.last().unwrap(), "second.webp");
    assert!(printed.is_empty());
    assert!(args.iter().any(|argument| argument == "jpeg:size=128x128"));

    let (args, printed) = thumbnail_command(&items, &[0, 1], 64);
    assert_eq!(printed, vec![0]);
    assert!(args.iter().any(|argument| argument == "+delete"), "{args:?}");
}

#[test]
fn a_command_lists_every_argument_in_order() {
    let items = vec![
        info("a.png", "ta.webp", 0, 5, "PNG"),
        info("b.JPEG", "tb.webp", 4, 4, "JPEG"),
    ];
    let (args, printed) = thumbnail_command(&items, &[0, 1], 32);
    let expected = [
        "a.png[0]", "-print", "%w %h %m\n", "-thumbnail", "32x32>", "-quality", "85", "-write", "ta.webp",
        "+delete", "-define", "jpeg:size=64x64", "b.JPEG[0]", "-thumbnail", "32x32>", "-quality", "85",
        "tb.webp",
    ];
    assert_eq!(args, expected);
    assert_eq!(printed, vec![0]);
}

#[test]
fn what_a_command_printed_is_applied_to_the_pictures_it_printed_for() {
    let mut items = vec![
        info("a.png", "ta.webp", 0, 0, "PNG"),
        info("b.png", "tb.webp", 7, 7, "PNG"),
        info("c.xyz", "tc.webp", 0, 0, "XYZ"),
    ];
    measure(&mut items, "640 480 PNG\r\nwide\n", &[0, 2]);
    assert_eq!((items[0].width, items[0].height, items[0].format.as_str()), (640, 480, "PNG"));
    assert_eq!((items[1].width, items[1].height), (7, 7));
    assert_eq!((items[2].width, items[2].height, items[2].format.as_str()), (0, 0, "UNKNOWN"));
    assert_eq!(items[2].path, "c.xyz");
}

#[test]
fn a_measurement_reads_numbers_as_parse_does() {
    assert_eq!(identified("  +12 34 TIFF extra"), (12, 34, "TIFF".to_string()));
    assert_eq!(identified("-1 4294967295 GIF"), (0, 4_294_967_295, "GIF".to_string()));
    assert_eq!(identified("4294967296 0x10"), (0, 0, "UNKNOWN".to_string()));
    assert_eq!(identified(""), (0, 0, "UNKNOWN".to_string()));
    assert_eq!(identified("+ 5"), (0, 5, "UNKNOWN".to_string()));
}

#[test]
fn sizes_outside_what_a_batch_can_make_are_refused() {
    assert!(check_size(1).is_ok());
    assert!(check_size(16_384).is_ok());
    assert_eq!(check_size(0), Err("thumbnail size must be between 1 and 16384".to_string()));
    assert!(check_size(16_385).is_err());
}

#[test]
fn the_workers_are_half_the_machine_between_one_and_eight() {
    assert_eq!(default_jobs(None), 1);
    assert_eq!(default_jobs(Some(1)), 1);
    assert_eq!(default_jobs(Some(6)), 3);
    assert_eq!(default_jobs(Some(64)), 8);
    assert_eq!(thread_share(0, 8), 8);
    assert_eq!(thread_share(3, 8), 2);
    assert_eq!(thread_share(16, 8), 1);
}

#[test]
fn a_thumbnail_is_named_by_the_hash_of_its_path_and_its_size() {
    let empty = thumbnail_file("cache", "", 64);
    assert_eq!(empty, "cache/thumb_cbf29ce484222325_64.webp");
    assert_eq!(thumbnail_file("cache/", "", 8), "cache/thumb_cbf29ce484222325_8.webp");
    assert_eq!(thumbnail_file("", "", 8), "thumb_cbf29ce484222325_8.webp");
    let one = thumbnail_file("c", "a", 1);
    assert_eq!(one, format!("c/thumb_{:016x}_1.webp", (0xcbf29ce484222325u64 ^ 97).wrapping_mul(0x100000001b3)));
    assert_ne!(thumbnail_file("c", "a.png", 64), thumbnail_file("c", "b.png", 64));
}

#[test]
fn misses_are_cut_into_batches_of_the_batch_size() {
    assert_eq!(batches(&[0, 1, 2, 3, 4], 2), vec![vec![0, 1], vec![2, 3], vec![4]]);
    assert_eq!(batches(&[7, 9], 0), vec![vec![7], vec![9]]);
    assert!(batches(&[], 8).is_empty());
}

#[test]
fn dropped_pictures_are_left_out_in_order() {
    let items = vec![info("a", "ta", 1, 1, "A"), info("b", "tb", 1, 1, "B"), info("c", "tc", 1, 1, "C")];
    let kept = retained(&items, &[1]);
    let names: Vec<&str> = kept.iter().map(|item| item.path.as_str()).collect();
    assert_eq!(names, ["a", "c"]);
}

#[test]
fn a_picture_read_again_unchanged_comes_from_memory() {
    let mut cache = ThumbnailCache::new("cache".to_string(), Some(4));
    assert_eq!(cache.jobs, 2);
    assert_eq!(cache.batch_size, 8);
    let stamp = Stamp { size: 100, modified_ns: 5 };
    let mut items = Vec::new();
    let mut misses = Vec::new();
    cache.take_in(
        "p/a.png",
        Ok((stamp, Some((10, 20, "PNG".to_string())))),
        None,
        64,
        1_000,
        &mut items,
        &mut misses,
    );
    assert_eq!(misses, vec![0]);
    assert_eq!((items[0].width, items[0].height, items[0].format.as_str()), (10, 20, "PNG"));
    assert_eq!(items[0].thumbnail, cache.thumbnail_path("p/a.png", 64));
    assert_eq!(items[0].size_bytes, 100);
    assert_eq!(cache.stats.memory_misses, 1);
    assert_eq!(cache.stats.disk_misses, 1);

    let measured = ThumbnailInfo { width: 11, height: 22, format: "PNG".to_string(), ..items[0].clone() };
    cache.remember(&measured, stamp, 1_000);
    let written = Some(FileState { size: 10, modified_ns: Some(9) });
    let mut again = Vec::new();
    let mut missing = Vec::new();
    cache.take_in("p/a.png", Ok((stamp, None)), written, 64, 2_000, &mut again, &mut missing);
    assert!(missing.is_empty());
    assert_eq!((again[0].width, again[0].height), (11, 22));
    assert_eq!(
        cache.stats,
        ThumbnailStats { memory_hits: 1, memory_misses: 1, disk_hits: 1, disk_misses: 1, invalidations: 0 }
    );
}

#[test]
fn a_changed_or_stale_picture_is_read_again_and_counted_as_an_invalidation() {
    let mut cache = ThumbnailCache::new("cache".to_string(), None);
    let stamp = Stamp { size: 100, modified_ns: 5 };
    let item = info("x.jpg", "t", 3, 4, "JPEG");
    cache.remember(&item, stamp, 0);
    let changed = Stamp { size: 101, modified_ns: 6 };
    let stale_thumbnail = Some(FileState { size: 10, modified_ns: Some(5) });
    let mut items = Vec::new();
    let mut misses = Vec::new();
    cache.take_in("x.jpg", Ok((changed, None)), stale_thumbnail, 64, 0, &mut items, &mut misses);
    assert_eq!((items[0].width, items[0].height, items[0].format.as_str()), (0, 0, "JPG"));
    assert_eq!(misses, vec![0]);
    assert_eq!(cache.stats.invalidations, 2);

    let expired = cache.ttl_ns + 1;
    cache.take_in("x.jpg", Ok((stamp, None)), None, 64, expired, &mut items, &mut misses);
    assert_eq!(items[1].width, 0);
    assert_eq!(cache.stats.invalidations, 3);
    assert_eq!(misses, vec![0, 1]);
}

#[test]
fn a_picture_that_cannot_be_read_is_recorded_and_left_out() {
    let mut cache = ThumbnailCache::new("cache".to_string(), Some(2));
    let mut items = Vec::new();
    let mut misses = Vec::new();
    cache.take_in("gone.png", Err("no such file".to_string()), None, 64, 0, &mut items, &mut misses);
    assert!(items.is_empty());
    assert!(misses.is_empty());
    assert_eq!(cache.failures, vec![("gone.png".to_string(), "no such file".to_string())]);
    assert_eq!(cache.stats, ThumbnailStats::default());
    assert!(cache.stats.can_count());
}

#[test]
fn a_batch_start_forgets_the_last_failures_even_when_it_refuses_the_size() {
    let mut cache = ThumbnailCache::new("cache".to_string(), None);
    cache.failures.push(("old.png".to_string(), "gone".to_string()));
    assert!(cache.start_batch(0).is_err());
    assert!(cache.failures.is_empty());
    cache.failures.push(("old.png".to_string(), "gone".to_string()));
    assert_eq!(cache.start_batch(64), Ok(()));
    assert!(cache.failures.is_empty());
}
