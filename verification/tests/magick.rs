use bite::magick::{fingerprint, thread_share, CaptureCache, CaptureMemory, Captured, CAPTURE_CACHE_LIMIT};
use bite::thumbnails::Stamp;

fn args(list: &[&str]) -> Vec<String> {
    list.iter().map(|arg| arg.to_string()).collect()
}

fn reference(bytes: &[u8]) -> String {
    let mut a = 0xcbf29ce484222325u64;
    let mut b = 0x84222325cbf29ce4u64;
    for byte in bytes {
        a = (a ^ u64::from(*byte)).wrapping_mul(0x100000001b3);
        b = (b ^ u64::from(*byte)).wrapping_mul(0x100000001b3 ^ 0x9e37);
    }
    format!("image-magick:{a:016x}{b:016x}")
}

#[test]
fn the_fingerprint_names_both_hashes_in_hexadecimal() {
    assert_eq!(fingerprint(&[]), "image-magick:cbf29ce48422232584222325cbf29ce4");
    for bytes in [&b"magick"[..], &[0u8, 255, 7][..], &[9u8; 40][..]] {
        assert_eq!(fingerprint(bytes), reference(bytes));
    }
}

#[test]
fn each_pipeline_takes_an_equal_share_of_the_machine() {
    assert_eq!(thread_share(4, 16), 4);
    assert_eq!(thread_share(3, 16), 5);
    assert_eq!(thread_share(32, 16), 1);
}

#[test]
fn captures_are_reused_until_the_files_they_measured_change() {
    let mut cache = CaptureCache::new();
    let command = args(&["a.png", "-format", "%[mean]", "info:"]);
    let sources = vec![("a.png".to_string(), Stamp { size: 10, modified_ns: 1 })];
    assert_eq!(cache.lookup(&command, &sources, 0, 100), None);
    assert_eq!((cache.stats.hits, cache.stats.misses, cache.stats.invalidations), (0, 1, 0));
    cache.store(command.clone(), sources.clone(), 0, 100, "0.5".to_string());
    assert_eq!(cache.lookup(&command, &sources, 50, 100), Some("0.5".to_string()));
    assert_eq!(cache.stats.hits, 1);
    let changed = vec![("a.png".to_string(), Stamp { size: 11, modified_ns: 2 })];
    assert_eq!(cache.lookup(&command, &changed, 60, 100), None);
    assert_eq!((cache.stats.misses, cache.stats.invalidations), (2, 1));
    assert_eq!(cache.lookup(&command, &sources, 101, 100), None);
    assert_eq!((cache.stats.misses, cache.stats.invalidations), (3, 2));
    let other = args(&["b.png", "info:"]);
    assert_eq!(cache.lookup(&other, &sources, 0, 100), None);
    assert_eq!(cache.stats.invalidations, 2);
}

#[test]
fn a_full_memory_clears_out_what_is_no_longer_current() {
    let mut cache = CaptureCache::new();
    let sources = vec![("a.png".to_string(), Stamp { size: 1, modified_ns: 1 })];
    for index in 0..CAPTURE_CACHE_LIMIT {
        let inserted = if index % 2 == 0 { 0 } else { 1_000 };
        cache.store(vec![format!("{index}")], sources.clone(), inserted, 10, String::new());
    }
    assert_eq!(cache.captures.len(), CAPTURE_CACHE_LIMIT);
    cache.store(vec!["new".to_string()], sources.clone(), 1_000, 10, "v".to_string());
    assert_eq!(cache.captures.len(), CAPTURE_CACHE_LIMIT / 2 + 1);
    assert!(cache.captures.get(&["1".to_string()]).is_some());
    assert!(cache.captures.get(&["0".to_string()]).is_none());
}

#[test]
fn a_memory_holds_one_entry_per_command() {
    let mut memory = CaptureMemory::new();
    let captured = |value: &str| Captured { sources: Vec::new(), inserted: 0, value: value.to_string() };
    memory.insert(args(&["x"]), captured("one"));
    memory.insert(args(&["x"]), captured("two"));
    memory.insert(args(&["x", "y"]), captured("three"));
    assert_eq!(memory.len(), 2);
    assert_eq!(memory.get(&args(&["x"])).unwrap().value, "two");
    memory.retain_fresh(5, 10);
    assert_eq!(memory.len(), 2);
    memory.retain_fresh(11, 10);
    assert_eq!(memory.len(), 0);
}

#[test]
fn exif_lines_become_metadata_fields() {
    let fields = bite::magick::exif_fields("exif:Make=Canon\r\nexif:Model= EOS 5D \nno field here\n  exif:exif:Odd = a=b\n=bare\n");
    let expected = [
        ("image.exif.Make", "Canon"),
        ("image.exif.Model", "EOS 5D"),
        ("image.exif.Odd", "a=b"),
        ("image.exif.", "bare"),
    ];
    assert_eq!(fields.len(), expected.len());
    for ((key, value), (want_key, want_value)) in fields.iter().zip(expected) {
        assert_eq!((key.as_str(), value.as_str()), (want_key, want_value));
    }
    assert!(bite::magick::exif_fields("").is_empty());
}

#[test]
fn a_command_that_reads_no_file_is_always_run_and_never_counted() {
    let mut cache = CaptureCache::new();
    let command = args(&["-version"]);
    assert_eq!(cache.reuse(&command, &[], 0, 100), None);
    cache.remember_output(command.clone(), Vec::new(), 0, 100, "7.1".to_string());
    assert_eq!(cache.reuse(&command, &[], 1, 100), None);
    assert_eq!(cache.captures.len(), 0);
    assert_eq!((cache.stats.hits, cache.stats.misses, cache.stats.invalidations), (0, 0, 0));
    let sources = vec![("a.png".to_string(), Stamp { size: 1, modified_ns: 1 })];
    assert_eq!(cache.reuse(&command, &sources, 0, 100), None);
    cache.remember_output(command.clone(), sources.clone(), 0, 100, "mean".to_string());
    assert_eq!(cache.reuse(&command, &sources, 10, 100), Some("mean".to_string()));
    assert_eq!((cache.stats.hits, cache.stats.misses), (1, 1));
}
