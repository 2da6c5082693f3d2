//! The interface toolkit's plain values: window and text-field behaviour, pointer buttons,
//! cursor shapes, keys, style color slots, rounded corners, and the editor's row and wire kinds.
use vstd::prelude::*;

verus! {

/// How a window behaves; the editor's panels are fixed, so most chrome is switched off.
#[derive(Clone, Copy, PartialEq, Eq, Debug, Structural)]
pub struct WindowFlags {
    pub no_title_bar: bool,
    pub no_resize: bool,
    pub no_move: bool,
    pub no_scrollbar: bool,
    pub no_collapse: bool,
    pub no_background: bool,
    pub no_bring_to_front: bool,
    pub no_saved_settings: bool,
    pub no_nav: bool,
    pub always_auto_resize: bool,
    pub horizontal_scrollbar: bool,
    pub no_scroll_with_mouse: bool,
}

/// A window with every flag off.
pub open spec fn plain_window() -> WindowFlags {
    WindowFlags {
        no_title_bar: false,
        no_resize: false,
        no_move: false,
        no_scrollbar: false,
        no_collapse: false,
        no_background: false,
        no_bring_to_front: false,
        no_saved_settings: false,
        no_nav: false,
        always_auto_resize: false,
        horizontal_scrollbar: false,
        no_scroll_with_mouse: false,
    }
}

impl Default for WindowFlags {
    fn default() -> (flags: Self)
        ensures
            flags == plain_window(),
    {
        WindowFlags {
            no_title_bar: false,
            no_resize: false,
            no_move: false,
            no_scrollbar: false,
            no_collapse: false,
            no_background: false,
            no_bring_to_front: false,
            no_saved_settings: false,
            no_nav: false,
            always_auto_resize: false,
            horizontal_scrollbar: false,
            no_scroll_with_mouse: false,
        }
    }
}

impl WindowFlags {
    /// A fixed panel: no chrome, no movement and no persisted state.
    pub fn panel() -> (flags: Self)
        ensures
            flags == (WindowFlags {
                no_title_bar: true,
                no_resize: true,
                no_move: true,
                no_collapse: true,
                no_bring_to_front: true,
                no_saved_settings: true,
                ..plain_window()
            }),
    {
        WindowFlags {
            no_title_bar: true,
            no_resize: true,
            no_move: true,
            no_collapse: true,
            no_bring_to_front: true,
            no_saved_settings: true,
            ..WindowFlags::default()
        }
    }
}

/// Text field behavior.
#[derive(Clone, Copy, PartialEq, Eq, Debug, Structural)]
pub struct InputFlags {
    pub read_only: bool,
    pub password: bool,
    pub chars_no_blank: bool,
    pub auto_select_all: bool,
    pub enter_returns_true: bool,
}

impl Default for InputFlags {
    fn default() -> (flags: Self)
        ensures
            flags == (InputFlags {
                read_only: false,
                password: false,
                chars_no_blank: false,
                auto_select_all: false,
                enter_returns_true: false,
            }),
    {
        InputFlags {
            read_only: false,
            password: false,
            chars_no_blank: false,
            auto_select_all: false,
            enter_returns_true: false,
        }
    }
}

/// A pointer button.
#[derive(Clone, Copy, PartialEq, Eq, Debug, Structural)]
pub enum MouseButton {
    Left,
    Right,
    Middle,
}

impl MouseButton {
    /// The button's number as Dear ImGui counts them: left, right, middle from zero.
    pub fn index(self) -> (index: i32)
        ensures
            index == match self {
                MouseButton::Left => 0i32,
                MouseButton::Right => 1i32,
                MouseButton::Middle => 2i32,
            },
    {
        match self {
            MouseButton::Left => 0,
            MouseButton::Right => 1,
            MouseButton::Middle => 2,
        }
    }
}

/// The cursor shape the interface requests; the host window applies it.
#[derive(Clone, Copy, PartialEq, Eq, Debug, Structural)]
pub enum MouseCursor {
    Arrow,
    TextInput,
    ResizeAll,
    ResizeNorthSouth,
    ResizeEastWest,
    ResizeNorthEastSouthWest,
    ResizeNorthWestSouthEast,
    Hand,
    NotAllowed,
}

/// Every key the editor binds, including the modifiers.
#[derive(Clone, Copy, PartialEq, Eq, Debug, Structural)]
pub enum Key {
    Tab,
    Left,
    Right,
    Up,
    Down,
    PageUp,
    PageDown,
    Home,
    End,
    Insert,
    Delete,
    Backspace,
    Space,
    Enter,
    Escape,
    Ctrl,
    Shift,
    Alt,
    Super,
    Minus,
    Equal,
    Plus,
    Digit0,
    A,
    C,
    D,
    F,
    G,
    N,
    O,
    R,
    S,
    V,
    X,
    Y,
    Z,
    F11,
    F12,
}

/// The style colors the editor overrides.
#[derive(Clone, Copy, PartialEq, Eq, Debug, Structural)]
pub enum StyleColor {
    Text,
    TextDisabled,
    WindowBg,
    ChildBg,
    PopupBg,
    Border,
    FrameBg,
    FrameBgHovered,
    FrameBgActive,
    Button,
    ButtonHovered,
    ButtonActive,
    Header,
    HeaderHovered,
    HeaderActive,
    Separator,
    CheckMark,
    SliderGrab,
    SliderGrabActive,
    ScrollbarBg,
    ScrollbarGrab,
    ScrollbarGrabHovered,
    ScrollbarGrabActive,
    TextSelectedBg,
    ModalWindowDimBg,
    NavHighlight,
    PlotHistogram,
}

/// Which corners a rounded rectangle rounds; `Square` rounds none.
#[derive(Clone, Copy, PartialEq, Eq, Debug, Structural)]
pub enum Rounding {
    All,
    Top,
    Bottom,
    Square,
}

/// The state of one inspector row, which decides how the value is presented.
#[derive(Clone, Copy, PartialEq, Eq, Debug, Structural)]
pub enum RowState {
    Editable,
    /// Driven by an incoming wire, so the source value is shown instead of a control.
    Wired,
    /// Produced by the node itself.
    Computed,
}

/// Which end of a connection the pointer started from.
#[derive(Clone, Copy, PartialEq, Eq, Debug, Structural)]
pub enum WireEnd {
    Source,
    Target,
}

} // verus!
