use bite::nodes::{matched_sets, rename_preview_names, rename_preview_title, sanitize_cli_name, text_preview_title};

#[test]
fn command_line_names_keep_only_the_accepted_characters() {
    assert_eq!(sanitize_cli_name("Output Image 1"), "output-image-1");
    assert_eq!(sanitize_cli_name("a_b!c"), "abc");
    assert_eq!(sanitize_cli_name("Already-Fine"), "already-fine");
}

#[test]
fn matched_sets_group_by_the_middle_segment() {
    let names = vec![
        "T_rock_AO.png".to_string(),
        "T_rock_N.png".to_string(),
        "T_wood_AO.png".to_string(),
    ];
    let suffixes = vec!["_AO".to_string(), "_N".to_string()];
    let sets = matched_sets(&names, "T_", &suffixes);
    assert_eq!(sets.len(), 2);
    let rock = sets.iter().find(|(name, _)| name == "T_rock").unwrap();
    assert_eq!(rock.1, vec![true, true]);
    let wood = sets.iter().find(|(name, _)| name == "T_wood").unwrap();
    assert_eq!(wood.1, vec![true, false]);
}

#[test]
fn files_outside_the_prefix_are_not_matched() {
    let names = vec!["X_rock_AO.png".to_string()];
    let suffixes = vec!["_AO".to_string()];
    assert!(matched_sets(&names, "T_", &suffixes).is_empty());
}

#[test]
fn the_rename_preview_counts_files_rather_than_file_s() {
    assert_eq!(rename_preview_title(0), "Preview (no files loaded)");
    assert_eq!(rename_preview_title(1), "Preview - 1 file");
    assert_eq!(rename_preview_title(4), "Preview - 4 files");
    assert_eq!(rename_preview_title(26), "Preview - first 10 of 26 files");
}

#[test]
fn the_rename_preview_falls_back_to_example_names() {
    let examples = rename_preview_names(&[]);
    assert_eq!(examples.len(), 3);
    assert_eq!(examples[0], "photo_001.jpg");
    let real: Vec<String> = (0..20).map(|index| format!("file{index}.png")).collect();
    assert_eq!(rename_preview_names(&real).len(), 10);
}

#[test]
fn the_text_preview_title_reports_each_state() {
    assert_eq!(text_preview_title(0, 0, false, 0), "Preview (connect a port)");
    assert_eq!(text_preview_title(0, 0, false, 1), "Preview (no files loaded)");
    assert_eq!(text_preview_title(3, 0, true, 1), "Preview...");
    assert_eq!(text_preview_title(3, 3, false, 1), "Preview - 3 line(s)");
    assert_eq!(text_preview_title(42, 10, false, 1), "Preview - first 10 of 42 files");
}

#[test]
fn matched_sets_come_out_sorted_by_name() {
    let names = vec![
        "T_wood_N.png".to_string(),
        "T_bark_AO.png".to_string(),
        "T_rock_N.png".to_string(),
        "T_bark_N.jpg".to_string(),
    ];
    let suffixes = vec!["_AO".to_string(), "_N".to_string()];
    let sets = matched_sets(&names, "T_", &suffixes);
    let order: Vec<&str> = sets.iter().map(|(name, _)| name.as_str()).collect();
    assert_eq!(order, ["T_bark", "T_rock", "T_wood"]);
    assert_eq!(sets[0].1, vec![true, true]);
    assert_eq!(sets[2].1, vec![false, true]);
}

#[test]
fn a_command_line_name_made_only_of_refused_characters_is_empty() {
    assert_eq!(sanitize_cli_name("!?_"), "");
    assert_eq!(sanitize_cli_name("Tab\there"), "tab-here");
    assert_eq!(sanitize_cli_name("Ünïcode"), "ncode");
}

#[test]
fn the_rename_preview_shows_the_real_names_when_there_are_some() {
    let real = vec!["a.png".to_string(), "b.png".to_string()];
    assert_eq!(rename_preview_names(&real), real);
}

fn named(id: &str, cli_name: Option<&str>) -> (String, Option<String>) {
    (id.to_string(), cli_name.map(str::to_string))
}

#[test]
fn an_empty_command_line_name_reports_that_no_flag_is_exported() {
    let names = vec![named("a", None)];
    let (hint, error) = bite::nodes::cli_name_hint("", "a", &names);
    assert_eq!(hint, "No flag (node won't appear in exported script)");
    assert!(!error);
}

#[test]
fn a_duplicate_command_line_name_is_reported_as_an_error() {
    let names = vec![named("a", Some("input-1")), named("b", Some("input-1"))];
    let (hint, error) = bite::nodes::cli_name_hint("input-1", "b", &names);
    assert_eq!(hint, "Name already used by another node");
    assert!(error);
}

#[test]
fn a_unique_command_line_name_reports_its_flag() {
    let names = vec![named("a", Some("input-1"))];
    let (hint, error) = bite::nodes::cli_name_hint("input-1", "a", &names);
    assert_eq!(hint, "Flag: --input-1");
    assert!(!error);
}
