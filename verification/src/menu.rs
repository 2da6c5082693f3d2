//! The application menu's commands, and the keyboard shortcuts that raise them.
use crate::widgets::Key;
use vstd::prelude::*;
use vstd::string::StringExecFns;

verus! {

/// Every command the menu can raise.
#[derive(Clone, Copy, PartialEq, Eq, Debug, Structural)]
pub enum Command {
    New,
    RunWorkflow,
    OpenWorkflow,
    SaveWorkflow,
    SaveWorkflowAs,
    ExportPowerShell,
    ExportBash,
    ExportCmd,
    Exit,
    Undo,
    Redo,
    Cut,
    Copy,
    Paste,
    Duplicate,
    Delete,
    SelectAll,
    ActualSize,
    ZoomIn,
    ZoomOut,
    ToggleFullScreen,
    TogglePerformanceTimers,
    ViewLog,
    OpenTempFolder,
    ClearCache,
    ShowAllUiElements,
    About,
    Documentation,
    ReportBug,
    Credits,
    CheckForUpdates,
}

/// What reaches the editor from outside a window event: everything that arrives on another
/// thread or from the system is handed to the event loop as one of these.
#[derive(Clone, Debug)]
pub enum AppEvent {
    /// A background job has a result ready, or wants a frame drawn.
    Wake,
    /// A menu item the system menu bar owns was chosen.
    Menu(Command),
    /// A workflow the system asked the editor to open.
    Open(String),
}

/// The modifier state a key press comes with: the platform's primary modifier (Control, or
/// Command on macOS) and Shift.
#[derive(Clone, Copy, PartialEq, Eq, Debug, Structural)]
pub struct Modifiers {
    pub primary: bool,
    pub shift: bool,
}

/// Whether a key press reports the single character `c`.
pub open spec fn is_key(key: Seq<char>, c: char) -> bool {
    key.len() == 1 && key[0] == c
}

/// The command a key press raises, matching the accelerators the menu shows.
pub open spec fn shortcut_of(key: Seq<char>, modifiers: Modifiers) -> Option<Command> {
    let primary = modifiers.primary;
    let shift = modifiers.shift;
    if primary && !shift && is_key(key, 'n') {
        Some(Command::New)
    } else if primary && !shift && is_key(key, 'o') {
        Some(Command::OpenWorkflow)
    } else if primary && !shift && is_key(key, 's') {
        Some(Command::SaveWorkflow)
    } else if primary && shift && is_key(key, 's') {
        Some(Command::SaveWorkflowAs)
    } else if primary && !shift && is_key(key, 'r') {
        Some(Command::RunWorkflow)
    } else if primary && !shift && is_key(key, 'z') {
        Some(Command::Undo)
    } else if primary && shift && is_key(key, 'z') {
        Some(Command::Redo)
    } else if primary && !shift && is_key(key, 'y') {
        Some(Command::Redo)
    } else if primary && !shift && is_key(key, 'x') {
        Some(Command::Cut)
    } else if primary && !shift && is_key(key, 'c') {
        Some(Command::Copy)
    } else if primary && !shift && is_key(key, 'v') {
        Some(Command::Paste)
    } else if primary && !shift && is_key(key, 'd') {
        Some(Command::Duplicate)
    } else if primary && !shift && is_key(key, 'a') {
        Some(Command::SelectAll)
    } else if primary && !shift && is_key(key, '0') {
        Some(Command::ActualSize)
    } else if primary && (is_key(key, '+') || is_key(key, '=')) {
        Some(Command::ZoomIn)
    } else if primary && !shift && is_key(key, '-') {
        Some(Command::ZoomOut)
    } else if !primary && !shift && key == "F11"@ {
        Some(Command::ToggleFullScreen)
    } else {
        None
    }
}

/// Resolves a key press to a menu command, matching the accelerators the menu shows.
pub fn shortcut(key: &str, modifiers: Modifiers) -> (command: Option<Command>)
    ensures
        command == shortcut_of(key@, modifiers),
{
    let primary = modifiers.primary;
    let shift = modifiers.shift;
    let chars = crate::text::chars_of(key);
    let single: Option<char> = if chars.len() == 1 {
        Some(chars[0])
    } else {
        None
    };
    if primary && !shift && single == Some('n') {
        Some(Command::New)
    } else if primary && !shift && single == Some('o') {
        Some(Command::OpenWorkflow)
    } else if primary && !shift && single == Some('s') {
        Some(Command::SaveWorkflow)
    } else if primary && shift && single == Some('s') {
        Some(Command::SaveWorkflowAs)
    } else if primary && !shift && single == Some('r') {
        Some(Command::RunWorkflow)
    } else if primary && !shift && single == Some('z') {
        Some(Command::Undo)
    } else if primary && shift && single == Some('z') {
        Some(Command::Redo)
    } else if primary && !shift && single == Some('y') {
        Some(Command::Redo)
    } else if primary && !shift && single == Some('x') {
        Some(Command::Cut)
    } else if primary && !shift && single == Some('c') {
        Some(Command::Copy)
    } else if primary && !shift && single == Some('v') {
        Some(Command::Paste)
    } else if primary && !shift && single == Some('d') {
        Some(Command::Duplicate)
    } else if primary && !shift && single == Some('a') {
        Some(Command::SelectAll)
    } else if primary && !shift && single == Some('0') {
        Some(Command::ActualSize)
    } else if primary && (single == Some('+') || single == Some('=')) {
        Some(Command::ZoomIn)
    } else if primary && !shift && single == Some('-') {
        Some(Command::ZoomOut)
    } else if !primary && !shift && crate::text::equals_text(&chars, "F11") {
        Some(Command::ToggleFullScreen)
    } else {
        None
    }
}

/// A key pressed without the primary modifier raises no command, but for F11 alone, which
/// toggles full screen.
pub proof fn lemma_shortcuts_need_the_primary_modifier(key: Seq<char>, modifiers: Modifiers)
    requires
        !modifiers.primary,
    ensures
        shortcut_of(key, modifiers) is Some <==> (key == "F11"@ && !modifiers.shift),
        shortcut_of(key, modifiers) is Some ==> shortcut_of(key, modifiers) == Some(
            Command::ToggleFullScreen,
        ),
{
}

/// Shift is what tells Save As from Save, and Redo from Undo, on the same key.
pub proof fn lemma_shift_separates_commands(primary: bool)
    requires
        primary,
    ensures
        shortcut_of(seq!['s'], Modifiers { primary, shift: false }) == Some(Command::SaveWorkflow),
        shortcut_of(seq!['s'], Modifiers { primary, shift: true }) == Some(Command::SaveWorkflowAs),
        shortcut_of(seq!['z'], Modifiers { primary, shift: false }) == Some(Command::Undo),
        shortcut_of(seq!['z'], Modifiers { primary, shift: true }) == Some(Command::Redo),
{
}

/// The label of the menu row that switches the performance timers.
pub fn timers_label(timers_enabled: bool) -> (label: &'static str)
    ensures
        label@ == if timers_enabled {
            "Disable Performance Timers"@
        } else {
            "Enable Performance Timers"@
        },
{
    if timers_enabled {
        "Disable Performance Timers"
    } else {
        "Enable Performance Timers"
    }
}

/// The chord a menu row shows under the platform's primary modifier, where it has one:
/// whether Shift is held too, the character a press of the key reports, and the key as the
/// row writes it.
pub open spec fn chord_of(command: Command) -> Option<(bool, char, Seq<char>)> {
    match command {
        Command::New => Some((false, 'n', "N"@)),
        Command::RunWorkflow => Some((false, 'r', "R"@)),
        Command::OpenWorkflow => Some((false, 'o', "O"@)),
        Command::SaveWorkflow => Some((false, 's', "S"@)),
        Command::SaveWorkflowAs => Some((true, 's', "S"@)),
        Command::Undo => Some((false, 'z', "Z"@)),
        Command::Redo => Some((false, 'y', "Y"@)),
        Command::Cut => Some((false, 'x', "X"@)),
        Command::Copy => Some((false, 'c', "C"@)),
        Command::Paste => Some((false, 'v', "V"@)),
        Command::Duplicate => Some((false, 'd', "D"@)),
        Command::SelectAll => Some((false, 'a', "A"@)),
        Command::ActualSize => Some((false, '0', "0"@)),
        Command::ZoomIn => Some((false, '+', "Plus"@)),
        Command::ZoomOut => Some((false, '-', "-"@)),
        _ => None,
    }
}

/// The accelerator a menu row shows: a chord under Cmd on macOS and Ctrl elsewhere; Delete
/// and F11 as they are; quitting as the platform binds it; nothing for the other rows.
pub open spec fn accelerator_text(command: Command, mac: bool) -> Seq<char> {
    match chord_of(command) {
        Some((shift, _, name)) => (if mac {
            "Cmd+"@
        } else {
            "Ctrl+"@
        }) + (if shift {
            "Shift+"@
        } else {
            Seq::empty()
        }) + name,
        None => match command {
            Command::Delete => "Delete"@,
            Command::ToggleFullScreen => "F11"@,
            Command::Exit => if mac {
                "Cmd+Q"@
            } else {
                "Alt+F4"@
            },
            _ => Seq::empty(),
        },
    }
}

/// The accelerator the menu row of `command` shows, on macOS or elsewhere.
pub fn accelerator(command: Command, mac: bool) -> (text: String)
    ensures
        text@ == accelerator_text(command, mac),
{
    let chord: Option<(bool, &'static str)> = match command {
        Command::New => Some((false, "N")),
        Command::RunWorkflow => Some((false, "R")),
        Command::OpenWorkflow => Some((false, "O")),
        Command::SaveWorkflow => Some((false, "S")),
        Command::SaveWorkflowAs => Some((true, "S")),
        Command::Undo => Some((false, "Z")),
        Command::Redo => Some((false, "Y")),
        Command::Cut => Some((false, "X")),
        Command::Copy => Some((false, "C")),
        Command::Paste => Some((false, "V")),
        Command::Duplicate => Some((false, "D")),
        Command::SelectAll => Some((false, "A")),
        Command::ActualSize => Some((false, "0")),
        Command::ZoomIn => Some((false, "Plus")),
        Command::ZoomOut => Some((false, "-")),
        _ => None,
    };
    match chord {
        Some((shift, name)) => {
            let mut text = if mac {
                String::from_str("Cmd+")
            } else {
                String::from_str("Ctrl+")
            };
            let ghost start = text@;
            if shift {
                crate::text::push_str(&mut text, "Shift+");
            }
            let ghost middle = text@;
            crate::text::push_str(&mut text, name);
            proof {
                if !shift {
                    assert(middle =~= start + Seq::<char>::empty());
                }
            }
            text
        },
        None => match command {
            Command::Delete => String::from_str("Delete"),
            Command::ToggleFullScreen => String::from_str("F11"),
            Command::Exit => if mac {
                String::from_str("Cmd+Q")
            } else {
                String::from_str("Alt+F4")
            },
            _ => String::new(),
        },
    }
}

/// Every chord a menu row shows is one a key press resolves to that row's command, and the
/// F11 row's key toggles full screen.
pub proof fn lemma_menu_chords_are_honoured(command: Command)
    ensures
        chord_of(command) matches Some((shift, key, _)) ==> shortcut_of(seq![key], Modifiers { primary: true, shift })
            == Some(command),
        shortcut_of("F11"@, Modifiers { primary: false, shift: false }) == Some(Command::ToggleFullScreen),
{
}

/// The label of the menu row of `command`: the Exit row names the application on macOS, and
/// the timer row says what choosing it will do.
pub open spec fn label_of(command: Command, timers_enabled: bool, mac: bool) -> Seq<char> {
    match command {
        Command::New => "New"@,
        Command::RunWorkflow => "Run Workflow"@,
        Command::OpenWorkflow => "Open Workflow"@,
        Command::SaveWorkflow => "Save Workflow"@,
        Command::SaveWorkflowAs => "Save Workflow As"@,
        Command::ExportPowerShell => "PowerShell"@,
        Command::ExportBash => "Bash"@,
        Command::ExportCmd => "Windows Command Prompt"@,
        Command::Exit => if mac {
            "Quit Bite"@
        } else {
            "Exit"@
        },
        Command::Undo => "Undo"@,
        Command::Redo => "Redo"@,
        Command::Cut => "Cut"@,
        Command::Copy => "Copy"@,
        Command::Paste => "Paste"@,
        Command::Duplicate => "Duplicate"@,
        Command::Delete => "Delete"@,
        Command::SelectAll => "Select All"@,
        Command::ActualSize => "Actual Size"@,
        Command::ZoomIn => "Zoom In"@,
        Command::ZoomOut => "Zoom Out"@,
        Command::ToggleFullScreen => "Toggle Full Screen"@,
        Command::TogglePerformanceTimers => if timers_enabled {
            "Disable Performance Timers"@
        } else {
            "Enable Performance Timers"@
        },
        Command::ViewLog => "View Log"@,
        Command::OpenTempFolder => "Open Temp Folder"@,
        Command::ClearCache => "Clear Cache"@,
        Command::ShowAllUiElements => "Show All UI Elements"@,
        Command::About => "About"@,
        Command::Documentation => "Documentation"@,
        Command::ReportBug => "Report a bug"@,
        Command::Credits => "Credits"@,
        Command::CheckForUpdates => "Check for Updates"@,
    }
}

/// The label of the menu row of `command`.
pub fn menu_label(command: Command, timers_enabled: bool, mac: bool) -> (label: &'static str)
    ensures
        label@ == label_of(command, timers_enabled, mac),
{
    match command {
        Command::New => "New",
        Command::RunWorkflow => "Run Workflow",
        Command::OpenWorkflow => "Open Workflow",
        Command::SaveWorkflow => "Save Workflow",
        Command::SaveWorkflowAs => "Save Workflow As",
        Command::ExportPowerShell => "PowerShell",
        Command::ExportBash => "Bash",
        Command::ExportCmd => "Windows Command Prompt",
        Command::Exit => if mac {
            "Quit Bite"
        } else {
            "Exit"
        },
        Command::Undo => "Undo",
        Command::Redo => "Redo",
        Command::Cut => "Cut",
        Command::Copy => "Copy",
        Command::Paste => "Paste",
        Command::Duplicate => "Duplicate",
        Command::Delete => "Delete",
        Command::SelectAll => "Select All",
        Command::ActualSize => "Actual Size",
        Command::ZoomIn => "Zoom In",
        Command::ZoomOut => "Zoom Out",
        Command::ToggleFullScreen => "Toggle Full Screen",
        Command::TogglePerformanceTimers => timers_label(timers_enabled),
        Command::ViewLog => "View Log",
        Command::OpenTempFolder => "Open Temp Folder",
        Command::ClearCache => "Clear Cache",
        Command::ShowAllUiElements => "Show All UI Elements",
        Command::About => "About",
        Command::Documentation => "Documentation",
        Command::ReportBug => "Report a bug",
        Command::Credits => "Credits",
        Command::CheckForUpdates => "Check for Updates",
    }
}

/// The character a key reports to [`shortcut`], for the keys that raise menu commands.
pub open spec fn key_char(key: Key) -> Option<char> {
    match key {
        Key::N => Some('n'),
        Key::O => Some('o'),
        Key::S => Some('s'),
        Key::R => Some('r'),
        Key::Z => Some('z'),
        Key::Y => Some('y'),
        Key::X => Some('x'),
        Key::C => Some('c'),
        Key::V => Some('v'),
        Key::D => Some('d'),
        Key::A => Some('a'),
        Key::Digit0 => Some('0'),
        Key::Minus => Some('-'),
        Key::Equal => Some('='),
        _ => None,
    }
}

/// The name a pressed key goes by when it is resolved to a menu command.
pub fn key_name(key: Key) -> (name: Option<&'static str>)
    ensures
        match key_char(key) {
            Some(c) => name matches Some(text) && text@ == seq![c],
            None => name is None,
        },
{
    proof {
        reveal_strlit("n");
        reveal_strlit("o");
        reveal_strlit("s");
        reveal_strlit("r");
        reveal_strlit("z");
        reveal_strlit("y");
        reveal_strlit("x");
        reveal_strlit("c");
        reveal_strlit("v");
        reveal_strlit("d");
        reveal_strlit("a");
        reveal_strlit("0");
        reveal_strlit("-");
        reveal_strlit("=");
    }
    let name: Option<&'static str> = match key {
        Key::N => Some("n"),
        Key::O => Some("o"),
        Key::S => Some("s"),
        Key::R => Some("r"),
        Key::Z => Some("z"),
        Key::Y => Some("y"),
        Key::X => Some("x"),
        Key::C => Some("c"),
        Key::V => Some("v"),
        Key::D => Some("d"),
        Key::A => Some("a"),
        Key::Digit0 => Some("0"),
        Key::Minus => Some("-"),
        Key::Equal => Some("="),
        _ => None,
    };
    proof {
        if let Some(text) = name {
            assert(text@ =~= seq![key_char(key).unwrap()]);
        }
    }
    name
}

/// The menus of the menu bar.
#[derive(Clone, Copy, PartialEq, Eq, Debug, Structural)]
pub enum MenuTitle {
    File,
    Edit,
    View,
    Debug,
    Help,
}

/// One row of a menu.
#[derive(Clone, Copy, PartialEq, Eq, Debug, Structural)]
pub enum MenuEntry {
    /// A row that raises a command.
    Item(Command),
    /// A line between groups of rows.
    Separator,
    /// The submenu of script exports.
    Export,
}

/// The menus of the bar, in order.
pub fn menu_titles() -> (titles: Vec<MenuTitle>)
    ensures
        titles@ == seq![MenuTitle::File, MenuTitle::Edit, MenuTitle::View, MenuTitle::Debug, MenuTitle::Help],
{
    let titles = vec![MenuTitle::File, MenuTitle::Edit, MenuTitle::View, MenuTitle::Debug, MenuTitle::Help];
    assert(titles@ =~= seq![MenuTitle::File, MenuTitle::Edit, MenuTitle::View, MenuTitle::Debug, MenuTitle::Help]);
    titles
}

/// The name a menu shows in the bar.
pub fn menu_title(menu: MenuTitle) -> (title: &'static str)
    ensures
        title@ == match menu {
            MenuTitle::File => "File"@,
            MenuTitle::Edit => "Edit"@,
            MenuTitle::View => "View"@,
            MenuTitle::Debug => "Debug"@,
            MenuTitle::Help => "Help"@,
        },
{
    match menu {
        MenuTitle::File => "File",
        MenuTitle::Edit => "Edit",
        MenuTitle::View => "View",
        MenuTitle::Debug => "Debug",
        MenuTitle::Help => "Help",
    }
}

/// The rows of a menu, in order: the Debug menu shows the row for every interface element only
/// to developers.
pub open spec fn menu_entries(menu: MenuTitle, developer: bool) -> Seq<MenuEntry> {
    match menu {
        MenuTitle::File => seq![
            MenuEntry::Item(Command::New),
            MenuEntry::Separator,
            MenuEntry::Item(Command::RunWorkflow),
            MenuEntry::Separator,
            MenuEntry::Item(Command::OpenWorkflow),
            MenuEntry::Item(Command::SaveWorkflow),
            MenuEntry::Item(Command::SaveWorkflowAs),
            MenuEntry::Separator,
            MenuEntry::Export,
            MenuEntry::Separator,
            MenuEntry::Item(Command::Exit),
        ],
        MenuTitle::Edit => seq![
            MenuEntry::Item(Command::Undo),
            MenuEntry::Item(Command::Redo),
            MenuEntry::Separator,
            MenuEntry::Item(Command::Cut),
            MenuEntry::Item(Command::Copy),
            MenuEntry::Item(Command::Paste),
            MenuEntry::Separator,
            MenuEntry::Item(Command::Duplicate),
            MenuEntry::Item(Command::Delete),
            MenuEntry::Separator,
            MenuEntry::Item(Command::SelectAll),
        ],
        MenuTitle::View => seq![
            MenuEntry::Item(Command::ActualSize),
            MenuEntry::Item(Command::ZoomIn),
            MenuEntry::Item(Command::ZoomOut),
            MenuEntry::Separator,
            MenuEntry::Item(Command::ToggleFullScreen),
        ],
        MenuTitle::Debug => seq![
            MenuEntry::Item(Command::TogglePerformanceTimers),
            MenuEntry::Separator,
            MenuEntry::Item(Command::ViewLog),
            MenuEntry::Separator,
            MenuEntry::Item(Command::OpenTempFolder),
            MenuEntry::Item(Command::ClearCache),
        ] + if developer {
            seq![MenuEntry::Separator, MenuEntry::Item(Command::ShowAllUiElements)]
        } else {
            Seq::empty()
        },
        MenuTitle::Help => seq![
            MenuEntry::Item(Command::About),
            MenuEntry::Item(Command::Documentation),
            MenuEntry::Item(Command::ReportBug),
            MenuEntry::Item(Command::Credits),
            MenuEntry::Separator,
            MenuEntry::Item(Command::CheckForUpdates),
        ],
    }
}

/// The rows of a menu, in order.
pub fn menu_items(menu: MenuTitle, developer: bool) -> (entries: Vec<MenuEntry>)
    ensures
        entries@ == menu_entries(menu, developer),
{
    let entries = match menu {
        MenuTitle::File => vec![
            MenuEntry::Item(Command::New),
            MenuEntry::Separator,
            MenuEntry::Item(Command::RunWorkflow),
            MenuEntry::Separator,
            MenuEntry::Item(Command::OpenWorkflow),
            MenuEntry::Item(Command::SaveWorkflow),
            MenuEntry::Item(Command::SaveWorkflowAs),
            MenuEntry::Separator,
            MenuEntry::Export,
            MenuEntry::Separator,
            MenuEntry::Item(Command::Exit),
        ],
        MenuTitle::Edit => vec![
            MenuEntry::Item(Command::Undo),
            MenuEntry::Item(Command::Redo),
            MenuEntry::Separator,
            MenuEntry::Item(Command::Cut),
            MenuEntry::Item(Command::Copy),
            MenuEntry::Item(Command::Paste),
            MenuEntry::Separator,
            MenuEntry::Item(Command::Duplicate),
            MenuEntry::Item(Command::Delete),
            MenuEntry::Separator,
            MenuEntry::Item(Command::SelectAll),
        ],
        MenuTitle::View => vec![
            MenuEntry::Item(Command::ActualSize),
            MenuEntry::Item(Command::ZoomIn),
            MenuEntry::Item(Command::ZoomOut),
            MenuEntry::Separator,
            MenuEntry::Item(Command::ToggleFullScreen),
        ],
        MenuTitle::Debug => {
            let mut rows = vec![
                MenuEntry::Item(Command::TogglePerformanceTimers),
                MenuEntry::Separator,
                MenuEntry::Item(Command::ViewLog),
                MenuEntry::Separator,
                MenuEntry::Item(Command::OpenTempFolder),
                MenuEntry::Item(Command::ClearCache),
            ];
            if developer {
                rows.push(MenuEntry::Separator);
                rows.push(MenuEntry::Item(Command::ShowAllUiElements));
            }
            rows
        },
        MenuTitle::Help => vec![
            MenuEntry::Item(Command::About),
            MenuEntry::Item(Command::Documentation),
            MenuEntry::Item(Command::ReportBug),
            MenuEntry::Item(Command::Credits),
            MenuEntry::Separator,
            MenuEntry::Item(Command::CheckForUpdates),
        ],
    };
    assert(entries@ =~= menu_entries(menu, developer));
    entries
}

/// The title of the submenu of script exports.
pub fn export_title() -> (title: &'static str)
    ensures
        title@ == "Export CLI Script"@,
{
    "Export CLI Script"
}

/// The rows of the submenu of script exports, in order.
pub fn export_commands() -> (commands: Vec<Command>)
    ensures
        commands@ == seq![Command::ExportPowerShell, Command::ExportBash, Command::ExportCmd],
{
    let commands = vec![Command::ExportPowerShell, Command::ExportBash, Command::ExportCmd];
    assert(commands@ =~= seq![Command::ExportPowerShell, Command::ExportBash, Command::ExportCmd]);
    commands
}

} // verus!
