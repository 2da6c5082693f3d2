//! Window placement kept between launches: the rectangle a session remembers, and the rules
//! that decide whether it can still be used.
use vstd::prelude::*;

verus! {

/// The outer window rectangle, in physical pixels, the units the monitor list is in.
///
/// When `maximized` is set, the rectangle is the one the window had before it was maximized:
/// what unmaximizing after a restart should give back.
#[derive(Clone, Copy, Debug, PartialEq, Eq, Structural)]
pub struct WindowBounds {
    pub x: i32,
    pub y: i32,
    pub width: u32,
    pub height: u32,
    pub maximized: bool,
}

/// The smallest side worth asking a window for, in physical pixels.
pub const MIN_SIDE: u32 = 320;

/// The largest side worth asking a window for, in physical pixels.
pub const MAX_SIDE: u32 = 32_767;

/// The rectangle a first launch opens with.
pub open spec fn default_bounds() -> WindowBounds {
    WindowBounds { x: 80, y: 60, width: 1280, height: 800, maximized: false }
}

/// Whether a side lies in the range a window can be drawn at.
pub open spec fn usable_side(side: u32) -> bool {
    MIN_SIDE <= side <= MAX_SIDE
}

/// The bounds with a size no window could be drawn at replaced by the default size.
pub open spec fn sized_bounds(bounds: WindowBounds) -> WindowBounds {
    if usable_side(bounds.width) && usable_side(bounds.height) {
        bounds
    } else {
        WindowBounds { width: default_bounds().width, height: default_bounds().height, ..bounds }
    }
}

/// A length in physical pixels read as the signed coordinate the window system adds it to.
pub open spec fn signed_side(side: u32) -> int {
    if side <= i32::MAX {
        side as int
    } else {
        side as int - 0x1_0000_0000
    }
}

/// Whether at least 80 pixels of the title bar, horizontally and vertically, overlap a monitor
/// given as its left, top, width and height.
pub open spec fn grabbable_on(bounds: WindowBounds, monitor: (i32, i32, u32, u32)) -> bool {
    let (x, y, width, height) = monitor;
    let right = x + signed_side(width);
    let bottom = y + signed_side(height);
    &&& bounds.x + signed_side(bounds.width) - 80 >= x
    &&& bounds.x + 80 <= right
    &&& bounds.y + 40 >= y
    &&& bounds.y <= bottom - 40
}

/// Whether the title bar can be grabbed on any of the monitors.
pub open spec fn visible_on(bounds: WindowBounds, monitors: Seq<(i32, i32, u32, u32)>) -> bool {
    exists|i: int| 0 <= i < monitors.len() && grabbable_on(bounds, #[trigger] monitors[i])
}

/// The bounds to open with: the remembered ones where they land on a monitor (or where no
/// monitor is known), else the default size placed near the first monitor's corner, shown
/// maximized or not as it was.
pub open spec fn placed_within(bounds: WindowBounds, monitors: Seq<(i32, i32, u32, u32)>) -> WindowBounds {
    if monitors.len() == 0 || visible_on(bounds, monitors) {
        bounds
    } else {
        WindowBounds {
            x: (monitors[0].0 + 80) as i32,
            y: (monitors[0].1 + 60) as i32,
            maximized: bounds.maximized,
            ..default_bounds()
        }
    }
}

/// A window opens where its title bar can be grabbed: bounds that land on a monitor are kept as
/// they are, and any others are moved onto the first monitor, provided that monitor is at least
/// 160 by 100 pixels and the move stays within the coordinates a window can have.
pub proof fn lemma_placed_window_can_be_grabbed(bounds: WindowBounds, monitors: Seq<(i32, i32, u32, u32)>)
    ensures
        visible_on(bounds, monitors) ==> placed_within(bounds, monitors) == bounds,
        monitors.len() > 0 && monitors[0].0 + 80 <= i32::MAX && monitors[0].1 + 60 <= i32::MAX && signed_side(
            monitors[0].2,
        ) >= 160 && signed_side(monitors[0].3) >= 100 ==> visible_on(placed_within(bounds, monitors), monitors),
        placed_within(bounds, monitors).maximized == bounds.maximized,
{
    if monitors.len() > 0 && monitors[0].0 + 80 <= i32::MAX && monitors[0].1 + 60 <= i32::MAX && signed_side(
        monitors[0].2,
    ) >= 160 && signed_side(monitors[0].3) >= 100 && !visible_on(bounds, monitors) {
        let placed = placed_within(bounds, monitors);
        assert(placed.x == monitors[0].0 + 80);
        assert(placed.y == monitors[0].1 + 60);
        assert(signed_side(placed.width) == 1280);
        assert(grabbable_on(placed, monitors[0]));
    }
}

impl Default for WindowBounds {
    fn default() -> (bounds: Self)
        ensures
            bounds == default_bounds(),
    {
        WindowBounds { x: 80, y: 60, width: 1280, height: 800, maximized: false }
    }
}

fn widen(side: u32) -> (wide: i64)
    ensures
        wide == signed_side(side),
{
    if side <= 0x7fff_ffff {
        side as i64
    } else {
        side as i64 - 0x1_0000_0000
    }
}

fn grabbable(bounds: WindowBounds, monitor: (i32, i32, u32, u32)) -> (grabbable: bool)
    ensures
        grabbable == grabbable_on(bounds, monitor),
{
    let (x, y, width, height) = monitor;
    let right: i64 = x as i64 + widen(width);
    let bottom: i64 = y as i64 + widen(height);
    bounds.x as i64 + widen(bounds.width) - 80 >= x as i64 && bounds.x as i64 + 80 <= right
        && bounds.y as i64 + 40 >= y as i64 && (bounds.y as i64) <= bottom - 40
}

impl WindowBounds {
    /// Replaces a size no window could be drawn at, keeping where the window was and how it was
    /// shown. A file written by an older build or edited by hand can hold a zero size.
    pub fn sized(self) -> (bounds: Self)
        ensures
            bounds == sized_bounds(self),
            bounds.x == self.x && bounds.y == self.y && bounds.maximized == self.maximized,
            usable_side(bounds.width) && usable_side(bounds.height),
    {
        if MIN_SIDE <= self.width && self.width <= MAX_SIDE && MIN_SIDE <= self.height
            && self.height <= MAX_SIDE {
            return self;
        }
        let default = WindowBounds::default();
        WindowBounds { width: default.width, height: default.height, ..self }
    }

    /// Whether at least 80 pixels of the title bar, horizontally and vertically, overlap one
    /// of the monitors, each given as its left, top, width and height.
    pub fn visible(&self, monitors: &[(i32, i32, u32, u32)]) -> (visible: bool)
        ensures
            visible == visible_on(*self, monitors@),
    {
        let mut index: usize = 0;
        while index < monitors.len()
            invariant
                index <= monitors@.len(),
                forall|i: int| 0 <= i < index ==> !grabbable_on(*self, #[trigger] monitors@[i]),
            decreases monitors@.len() - index,
        {
            if grabbable(*self, monitors[index]) {
                return true;
            }
            index = index + 1;
        }
        false
    }

    /// Discards remembered bounds that no longer land on a visible monitor, each monitor given
    /// as its left, top, width and height.
    ///
    /// The test is an overlap of the title area with a monitor, not containment of the
    /// window's corner: a window against the top or left edge has a negative outer position.
    /// Whatever the rectangle, `maximized` survives.
    pub fn window_within(&self, monitors: &[(i32, i32, u32, u32)]) -> (bounds: WindowBounds)
        requires
            monitors@.len() > 0 && !visible_on(*self, monitors@) ==> monitors@[0].0 + 80 <= i32::MAX
                && monitors@[0].1 + 60 <= i32::MAX,
        ensures
            bounds == placed_within(*self, monitors@),
            bounds.maximized == self.maximized,
    {
        if monitors.len() == 0 || self.visible(monitors) {
            return *self;
        }
        let default = WindowBounds::default();
        WindowBounds {
            x: monitors[0].0 + 80,
            y: monitors[0].1 + 60,
            maximized: self.maximized,
            ..default
        }
    }
}

/// The rectangle to remember from the window as it is now: its outer position and inner size
/// while it is shown in its ordinary state; otherwise, or where the system gives no position or
/// a zero size, what was remembered before, so that a maximized window keeps the rectangle it
/// restores down to.
pub open spec fn remembered_bounds(
    remembered: WindowBounds,
    maximized: bool,
    minimized: bool,
    inner: (u32, u32),
    outer: Option<(i32, i32)>,
) -> WindowBounds {
    if maximized || minimized || inner.0 == 0 || inner.1 == 0 {
        remembered
    } else {
        match outer {
            Some((x, y)) => WindowBounds { x, y, width: inner.0, height: inner.1, maximized: false },
            None => remembered,
        }
    }
}

/// Takes the window's rectangle for the next launch, while it is in its ordinary state.
pub fn remember_bounds(
    remembered: WindowBounds,
    maximized: bool,
    minimized: bool,
    inner: (u32, u32),
    outer: Option<(i32, i32)>,
) -> (bounds: WindowBounds)
    ensures
        bounds == remembered_bounds(remembered, maximized, minimized, inner, outer),
{
    if maximized || minimized {
        return remembered;
    }
    if inner.0 == 0 || inner.1 == 0 {
        return remembered;
    }
    match outer {
        Some((x, y)) => WindowBounds { x, y, width: inner.0, height: inner.1, maximized: false },
        None => remembered,
    }
}

/// The bounds a closing window leaves for the next launch: the rectangle taken as
/// [`remember_bounds`] takes it, and whether the window is maximized now.
pub fn closing_bounds(
    remembered: WindowBounds,
    maximized: bool,
    minimized: bool,
    inner: (u32, u32),
    outer: Option<(i32, i32)>,
) -> (bounds: WindowBounds)
    ensures
        bounds == (WindowBounds {
            maximized,
            ..remembered_bounds(remembered, maximized, minimized, inner, outer)
        }),
        maximized ==> bounds.x == remembered.x && bounds.y == remembered.y && bounds.width
            == remembered.width && bounds.height == remembered.height,
{
    let taken = remember_bounds(remembered, maximized, minimized, inner, outer);
    WindowBounds { maximized, ..taken }
}

} // verus!
