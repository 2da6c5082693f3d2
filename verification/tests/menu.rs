use bite::menu::{
    accelerator, export_commands, menu_items, menu_label, menu_title, menu_titles, shortcut, timers_label, Command,
    MenuEntry, MenuTitle, Modifiers,
};
use bite::widgets::Key;

fn press(key: &str, primary: bool, shift: bool) -> Option<Command> {
    shortcut(key, Modifiers { primary, shift })
}

#[test]
fn save_and_save_as_are_separated_by_the_shift_modifier() {
    assert_eq!(press("s", true, false), Some(Command::SaveWorkflow));
    assert_eq!(press("s", true, true), Some(Command::SaveWorkflowAs));
}

#[test]
fn both_redo_accelerators_are_accepted() {
    assert_eq!(press("y", true, false), Some(Command::Redo));
    assert_eq!(press("z", true, true), Some(Command::Redo));
    assert_eq!(press("z", true, false), Some(Command::Undo));
}

#[test]
fn keys_without_the_modifier_are_not_menu_commands() {
    assert_eq!(press("s", false, false), None);
    assert_eq!(press("n", false, false), None);
}

#[test]
fn the_zoom_accelerators_cover_both_plus_spellings() {
    assert_eq!(press("+", true, false), Some(Command::ZoomIn));
    assert_eq!(press("=", true, false), Some(Command::ZoomIn));
    assert_eq!(press("-", true, false), Some(Command::ZoomOut));
    assert_eq!(press("0", true, false), Some(Command::ActualSize));
}

#[test]
fn fullscreen_needs_no_modifier() {
    assert_eq!(press("F11", false, false), Some(Command::ToggleFullScreen));
}

#[test]
fn the_remaining_accelerators_and_what_they_refuse() {
    assert_eq!(press("n", true, false), Some(Command::New));
    assert_eq!(press("o", true, false), Some(Command::OpenWorkflow));
    assert_eq!(press("r", true, false), Some(Command::RunWorkflow));
    assert_eq!(press("x", true, false), Some(Command::Cut));
    assert_eq!(press("c", true, false), Some(Command::Copy));
    assert_eq!(press("v", true, false), Some(Command::Paste));
    assert_eq!(press("d", true, false), Some(Command::Duplicate));
    assert_eq!(press("a", true, false), Some(Command::SelectAll));
    assert_eq!(press("+", true, true), Some(Command::ZoomIn));
    assert_eq!(press("-", true, true), None);
    assert_eq!(press("F11", true, false), None);
    assert_eq!(press("F11", false, true), None);
    assert_eq!(press("S", true, false), None);
}

#[test]
fn the_timer_row_says_what_choosing_it_will_do() {
    assert_eq!(timers_label(true), "Disable Performance Timers");
    assert_eq!(timers_label(false), "Enable Performance Timers");
}

#[test]
fn each_row_shows_the_chord_the_platform_spells() {
    assert_eq!(accelerator(Command::New, false), "Ctrl+N");
    assert_eq!(accelerator(Command::New, true), "Cmd+N");
    assert_eq!(accelerator(Command::SaveWorkflowAs, false), "Ctrl+Shift+S");
    assert_eq!(accelerator(Command::ZoomIn, false), "Ctrl+Plus");
    assert_eq!(accelerator(Command::Delete, true), "Delete");
    assert_eq!(accelerator(Command::ToggleFullScreen, false), "F11");
    assert_eq!(accelerator(Command::Exit, false), "Alt+F4");
    assert_eq!(accelerator(Command::Exit, true), "Cmd+Q");
    assert_eq!(accelerator(Command::About, false), "");
    assert_eq!(menu_label(Command::Exit, false, true), "Quit Bite");
    assert_eq!(menu_label(Command::Exit, false, false), "Exit");
    assert_eq!(menu_label(Command::TogglePerformanceTimers, true, false), "Disable Performance Timers");
    assert_eq!(menu_label(Command::ReportBug, false, false), "Report a bug");
}

#[test]
fn every_chord_a_row_shows_is_resolved_to_that_row() {
    let all = [
        Command::New, Command::RunWorkflow, Command::OpenWorkflow, Command::SaveWorkflow,
        Command::SaveWorkflowAs, Command::Undo, Command::Redo, Command::Cut, Command::Copy,
        Command::Paste, Command::Duplicate, Command::SelectAll, Command::ActualSize,
        Command::ZoomIn, Command::ZoomOut,
    ];
    for command in all {
        let text = accelerator(command, false);
        let chord = text.strip_prefix("Ctrl+").unwrap();
        let (shift, key) = match chord.strip_prefix("Shift+") {
            Some(key) => (true, key),
            None => (false, chord),
        };
        let pressed = if key == "Plus" { "+".to_string() } else { key.to_lowercase() };
        assert_eq!(press(&pressed, true, shift), Some(command), "{text}");
    }
}

#[test]
fn the_keys_the_canvas_polls_resolve_through_the_shortcut_table() {
    assert_eq!(bite::menu::key_name(Key::S), Some("s"));
    assert_eq!(bite::menu::key_name(Key::Equal), Some("="));
    assert_eq!(bite::menu::key_name(Key::F11), None);
    let name = bite::menu::key_name(Key::Minus).unwrap();
    assert_eq!(press(name, true, false), Some(Command::ZoomOut));
}

#[test]
fn the_menu_bar_lists_every_command_once_and_the_developer_row_only_to_developers() {
    let titles: Vec<&str> = menu_titles().into_iter().map(menu_title).collect();
    assert_eq!(titles, ["File", "Edit", "View", "Debug", "Help"]);
    let mut seen = Vec::new();
    for menu in menu_titles() {
        for entry in menu_items(menu, true) {
            match entry {
                MenuEntry::Item(command) => seen.push(command),
                MenuEntry::Export => seen.extend(export_commands()),
                MenuEntry::Separator => {}
            }
        }
    }
    assert_eq!(seen.len(), 31);
    for (index, command) in seen.iter().enumerate() {
        assert!(!seen[index + 1..].contains(command));
    }
    let debug = menu_items(MenuTitle::Debug, false);
    assert!(!debug.contains(&MenuEntry::Item(Command::ShowAllUiElements)));
    assert_eq!(menu_items(MenuTitle::File, false)[8], MenuEntry::Export);
    assert_eq!(bite::menu::export_title(), "Export CLI Script");
}
